//! Self-update: which version is newer, where it is fetched from, and what
//! has to go well before it replaces the running binary.

use crate::config::{
    cdn_address_is_the_base_and_the_file, cdn_file_url, cdn_is_used_when_named, UpdateConfig,
};
use crate::crypto::{hex_encode, hex_text, sha256, sha256_digest};
use crate::document::{
    first_member_counts, json_document, missing_member_is_not_found, parse_json, str_member, Document,
    ScalarView,
};
use crate::release::{
    artifact_name, binary_artifact_name, checksum_artifact_name, two_architectures_have_a_binary,
    unsupported_arch,
};
use crate::text::{
    is_white_space, put, same, trim, trimmed, trimming_leaves_the_middle,
    trimming_takes_the_class_off, views, CharClass,
};
use crate::version::{is_newer, newer};
use vstd::prelude::*;
use vstd::utf8::encode_utf8;

verus! {

// ─── Versions ────────────────────────────────────────────────────────────────

/// Returns `true` when `candidate` is strictly newer than `current` by semver.
///
/// Handles optional leading `v` prefix and tolerates missing patch component.
pub fn semver_is_newer(candidate: &str, current: &str) -> (res: bool)
    ensures
        res == is_newer(candidate@, current@),
{
    newer(candidate, current)
}

// ─── Sources ─────────────────────────────────────────────────────────────────

/// How an update ended.
#[derive(Debug, Clone, Copy, PartialEq, Eq, Structural)]
pub enum UpdateOutcome {
    UpToDate,
    Installed { restart_scheduled: bool },
}

/// Where an update comes from.
pub struct UpdateUrls {
    pub version_check_url: String,
    pub binary_url: String,
    pub checksum_url: String,
    pub source_label: &'static str,
}

pub struct UrlsView {
    pub version_check_url: Seq<char>,
    pub binary_url: Seq<char>,
    pub checksum_url: Seq<char>,
    pub source_label: Seq<char>,
}

impl View for UpdateUrls {
    type V = UrlsView;

    open spec fn view(&self) -> UrlsView {
        UrlsView {
            version_check_url: self.version_check_url@,
            binary_url: self.binary_url@,
            checksum_url: self.checksum_url@,
            source_label: self.source_label@,
        }
    }
}

/// What the source of updates is called.
pub open spec fn label_of(config: UpdateConfig) -> Seq<char> {
    if config.has_cdn() {
        "CDN"@
    } else {
        "GitHub"@
    }
}

/// What the source of updates is called.
fn source_label(config: &UpdateConfig) -> (res: &'static str)
    ensures
        res@ == label_of(*config),
{
    if config.uses_cdn() {
        "CDN"
    } else {
        "GitHub"
    }
}

/// Where updates come from: the CDN if one is configured, otherwise GitHub,
/// if it has a binary for the CPU.
pub open spec fn urls_of(config: UpdateConfig, arch: Seq<char>) -> Result<UrlsView, Seq<char>> {
    let base = "https://github.com/nulnet/nulnet/releases/latest/download"@;
    if config.has_cdn() {
        Ok(
            UrlsView {
                version_check_url: cdn_file_url(config.written_base(), "/version.txt"@),
                binary_url: cdn_file_url(config.written_base(), "/nulnet"@),
                checksum_url: cdn_file_url(config.written_base(), "/nulnet.sha256"@),
                source_label: label_of(config),
            },
        )
    } else {
        match artifact_name(arch) {
            Some(binary) => Ok(
                UrlsView {
                    version_check_url:
                        "https://api.github.com/repos/nulnet/nulnet/releases/latest"@,
                    binary_url: base + "/"@ + binary,
                    checksum_url: base + "/"@ + (binary + ".sha256"@),
                    source_label: label_of(config),
                },
            ),
            None => Err(unsupported_arch(arch)),
        }
    }
}

/// Finds out where updates come from.
pub fn urls_for_config(config: &UpdateConfig, arch: &str) -> (res: Result<UpdateUrls, String>)
    ensures
        match res {
            Ok(urls) => urls_of(*config, arch@) == Ok::<_, Seq<char>>(urls@),
            Err(e) => urls_of(*config, arch@) == Err::<UrlsView, _>(e@),
        },
{
    if config.uses_cdn() {
        return Ok(
            UpdateUrls {
                version_check_url: config.cdn_version_url(),
                binary_url: config.cdn_binary_url(),
                checksum_url: config.cdn_checksum_url(),
                source_label: source_label(config),
            },
        );
    }
    let artifact = match binary_artifact_name(arch) {
        Ok(artifact) => artifact,
        Err(e) => return Err(e),
    };
    let checksum = match checksum_artifact_name(arch) {
        Ok(checksum) => checksum,
        Err(e) => return Err(e),
    };
    let mut binary_url = UpdateConfig::github_download_base();
    binary_url.append("/");
    binary_url.append(artifact);
    let mut checksum_url = UpdateConfig::github_download_base();
    checksum_url.append("/");
    checksum_url.append(checksum.as_str());
    Ok(
        UpdateUrls {
            version_check_url: UpdateConfig::github_latest_api_url(),
            binary_url,
            checksum_url,
            source_label: source_label(config),
        },
    )
}

/// The tag of a release, in what GitHub says of it.
pub open spec fn tag_in(
    response: Result<Seq<(Seq<char>, ScalarView)>, Seq<char>>,
) -> Result<Seq<char>, Seq<char>> {
    match response {
        Err(e) => Err("invalid GitHub API response: "@ + e),
        Ok(members) => match str_member(members, "tag_name"@) {
            Some(tag) => Ok(trimmed(tag)),
            None => Err("GitHub API response missing tag_name"@),
        },
    }
}

/// What came of reading a document, as a value.
pub open spec fn document_view(response: Result<Document, String>) -> Result<
    Seq<(Seq<char>, ScalarView)>,
    Seq<char>,
> {
    match response {
        Ok(document) => Ok(document@),
        Err(e) => Err(e@),
    }
}

/// What came of an attempt to get a text, as a value.
pub open spec fn text_view(text: Result<String, String>) -> Result<Seq<char>, Seq<char>> {
    match text {
        Ok(text) => Ok(text@),
        Err(e) => Err(e@),
    }
}

/// Finds the tag of a release in a document that GitHub sent.
pub fn tag_in_response(response: Result<Document, String>) -> (res: Result<String, String>)
    ensures
        text_view(res) == tag_in(document_view(response)),
{
    match response {
        Ok(document) => match document.get_str("tag_name") {
            Some(tag) => Ok(trim(tag.as_str())),
            None => Err("GitHub API response missing tag_name".to_string()),
        },
        Err(e) => {
            let mut message = "invalid GitHub API response: ".to_string();
            message.append(e.as_str());
            Err(message)
        },
    }
}

/// Finds the tag of a release in what GitHub sent.
pub fn parse_github_tag(body: &str) -> (res: Result<String, String>)
    ensures
        text_view(res) == tag_in(json_document(body@)),
{
    tag_in_response(parse_json(body))
}

/// Whether the SHA-256 digest of `data` is what `expected` says, in small
/// hexadecimal digits.
pub fn sha256_matches(data: &[u8], expected: &str) -> (res: bool)
    ensures
        res == (expected@ == hex_text(sha256_digest(data@))),
{
    let digest = sha256(data);
    same(hex_encode(digest.as_slice()).as_str(), expected)
}

// ─── Outside commands ────────────────────────────────────────────────────────

/// Where the new binary is put first.
pub open spec fn tmp_path_spec() -> Seq<char> {
    "/tmp/nulnet"@
}

/// Where the new binary is put first.
pub fn tmp_path() -> (res: &'static str)
    ensures
        res@ == tmp_path_spec(),
{
    "/tmp/nulnet"
}

/// Where the running binary is.
pub open spec fn install_path_spec() -> Seq<char> {
    "/opt/nulnet/bin/nulnet"@
}

/// Where the running binary is.
pub fn install_path() -> (res: &'static str)
    ensures
        res@ == install_path_spec(),
{
    "/opt/nulnet/bin/nulnet"
}

/// The arguments with which `curl` fetches a small text, with conservative
/// timeouts.
pub open spec fn fetch_args_spec(url: Seq<char>, version: Seq<char>) -> Seq<Seq<char>> {
    seq![
        "-fsSL"@,
        "--connect-timeout"@,
        "10"@,
        "--max-time"@,
        "30"@,
        "-A"@,
        "nulnet/"@ + version,
        url,
    ]
}

/// The arguments with which `curl` fetches a small text.
pub fn fetch_args(url: &str, version: &str) -> (res: Vec<String>)
    ensures
        views(res@) == fetch_args_spec(url@, version@),
{
    let mut agent = "nulnet/".to_string();
    agent.append(version);
    let mut args: Vec<String> = Vec::new();
    put(&mut args, "-fsSL");
    put(&mut args, "--connect-timeout");
    put(&mut args, "10");
    put(&mut args, "--max-time");
    put(&mut args, "30");
    put(&mut args, "-A");
    put(&mut args, agent.as_str());
    put(&mut args, url);
    args
}

/// The arguments with which `curl` downloads the new binary.
pub open spec fn download_args_spec(url: Seq<char>, version: Seq<char>) -> Seq<Seq<char>> {
    seq![
        "-fSL"@,
        "--connect-timeout"@,
        "10"@,
        "--max-time"@,
        "120"@,
        "-A"@,
        "nulnet/"@ + version,
        "-o"@,
        tmp_path_spec(),
        url,
    ]
}

/// The arguments with which `curl` downloads the new binary.
pub fn download_args(url: &str, version: &str) -> (res: Vec<String>)
    ensures
        views(res@) == download_args_spec(url@, version@),
{
    let mut agent = "nulnet/".to_string();
    agent.append(version);
    let mut args: Vec<String> = Vec::new();
    put(&mut args, "-fSL");
    put(&mut args, "--connect-timeout");
    put(&mut args, "10");
    put(&mut args, "--max-time");
    put(&mut args, "120");
    put(&mut args, "-A");
    put(&mut args, agent.as_str());
    put(&mut args, "-o");
    put(&mut args, tmp_path());
    put(&mut args, url);
    args
}

/// What came of running a command.
pub enum CommandOutcome {
    /// It could not be run, for the reason given.
    NotRun(String),
    /// It ran and ended.
    Exited {
        success: bool,
        /// How it ended, in words.
        status: String,
        stdout: String,
        stderr: String,
    },
}

pub enum OutcomeView {
    NotRun(Seq<char>),
    Exited { success: bool, status: Seq<char>, stdout: Seq<char>, stderr: Seq<char> },
}

impl View for CommandOutcome {
    type V = OutcomeView;

    open spec fn view(&self) -> OutcomeView {
        match self {
            CommandOutcome::NotRun(e) => OutcomeView::NotRun(e@),
            CommandOutcome::Exited { success, status, stdout, stderr } => OutcomeView::Exited {
                success: *success,
                status: status@,
                stdout: stdout@,
                stderr: stderr@,
            },
        }
    }
}

/// The text that `curl` fetched, without white space around it, or why there
/// is none.
pub open spec fn fetched(outcome: OutcomeView) -> Result<Seq<char>, Seq<char>> {
    match outcome {
        OutcomeView::NotRun(e) => Err("curl error: "@ + e),
        OutcomeView::Exited { success, status, stdout, stderr } => if success {
            Ok(trimmed(stdout))
        } else {
            Err("curl exited "@ + status + ": "@ + trimmed(stderr))
        },
    }
}

/// Reads the text that `curl` fetched.
pub fn fetched_text(outcome: CommandOutcome) -> (res: Result<String, String>)
    ensures
        text_view(res) == fetched(outcome@),
{
    match outcome {
        CommandOutcome::NotRun(e) => {
            let mut message = "curl error: ".to_string();
            message.append(e.as_str());
            Err(message)
        },
        CommandOutcome::Exited { success, status, stdout, stderr } => {
            if success {
                Ok(trim(stdout.as_str()))
            } else {
                let mut message = "curl exited ".to_string();
                message.append(status.as_str());
                message.append(": ");
                message.append(trim(stderr.as_str()).as_str());
                Err(message)
            }
        },
    }
}

/// The version on offer, in what was fetched: a CDN sends the version itself,
/// GitHub a document that holds it.
pub open spec fn offered(
    config: UpdateConfig,
    fetched: Result<Seq<char>, Seq<char>>,
) -> Result<Seq<char>, Seq<char>> {
    match fetched {
        Ok(body) if !config.has_cdn() => tag_in(json_document(body)),
        _ => fetched,
    }
}

/// Reads the version on offer.
pub fn latest_version(config: &UpdateConfig, fetched: Result<String, String>) -> (res: Result<
    String,
    String,
>)
    ensures
        text_view(res) == offered(*config, text_view(fetched)),
{
    match fetched {
        Ok(body) => if config.uses_cdn() {
            Ok(body)
        } else {
            parse_github_tag(body.as_str())
        },
        Err(e) => Err(e),
    }
}

// ─── The update, step by step ────────────────────────────────────────────────

/// `text` in a style that the client knows.
pub open spec fn styled(style: Seq<char>, text: Seq<char>) -> Seq<char> {
    "["@ + style + "]"@ + text + "[/"@ + style + "]"@
}

fn in_style(style: &str, text: &str) -> (res: String)
    ensures
        res@ == styled(style@, text@),
{
    let mut res = "[".to_string();
    res.append(style);
    res.append("]");
    res.append(text);
    res.append("[/");
    res.append(style);
    res.append("]");
    res
}

/// Text of little weight.
pub fn dim(s: &str) -> (res: String)
    ensures
        res@ == styled("dim"@, s@),
{
    in_style("dim", s)
}

/// Text that tells of success.
pub fn green(s: &str) -> (res: String)
    ensures
        res@ == styled("green"@, s@),
{
    in_style("green", s)
}

/// Text that warns.
pub fn yellow(s: &str) -> (res: String)
    ensures
        res@ == styled("yellow"@, s@),
{
    in_style("yellow", s)
}

/// Text that tells of failure.
pub fn red(s: &str) -> (res: String)
    ensures
        res@ == styled("red"@, s@),
{
    in_style("red", s)
}

/// What the update waits for.
pub enum Stage {
    /// The version on offer.
    Version,
    /// The download of the new binary.
    Download { latest: String },
    /// The digest that the new binary should have.
    Checksum { latest: String },
    /// The content of the new binary.
    Digest { latest: String, expected: String },
    /// The new binary to be executable.
    Executable { latest: String },
    /// The directory to install into.
    Directory { latest: String },
    /// The new binary to replace the running one.
    Install { latest: String },
    /// The restart to be on its way.
    Restart,
}

pub enum StageView {
    Version,
    Download(Seq<char>),
    Checksum(Seq<char>),
    Digest { latest: Seq<char>, expected: Seq<char> },
    Executable(Seq<char>),
    Directory(Seq<char>),
    Install(Seq<char>),
    Restart,
}

impl View for Stage {
    type V = StageView;

    open spec fn view(&self) -> StageView {
        match self {
            Stage::Version => StageView::Version,
            Stage::Download { latest } => StageView::Download(latest@),
            Stage::Checksum { latest } => StageView::Checksum(latest@),
            Stage::Digest { latest, expected } => StageView::Digest {
                latest: latest@,
                expected: expected@,
            },
            Stage::Executable { latest } => StageView::Executable(latest@),
            Stage::Directory { latest } => StageView::Directory(latest@),
            Stage::Install { latest } => StageView::Install(latest@),
            Stage::Restart => StageView::Restart,
        }
    }
}

/// A program and the arguments that it is run with, as a value.
pub open spec fn command_view(command: Option<(String, Vec<String>)>) -> Option<
    (Seq<char>, Seq<Seq<char>>),
> {
    match command {
        Some((program, args)) => Some((program@, views(args@))),
        None => None,
    }
}

/// The command that a stage waits for. The content of the download is read, not
/// asked for by a command.
pub open spec fn command_of(stage: StageView, urls: UrlsView, version: Seq<char>) -> Option<
    (Seq<char>, Seq<Seq<char>>),
> {
    match stage {
        StageView::Version => Some(("curl"@, fetch_args_spec(urls.version_check_url, version))),
        StageView::Download(_) => Some(("curl"@, download_args_spec(urls.binary_url, version))),
        StageView::Checksum(_) => Some(("curl"@, fetch_args_spec(urls.checksum_url, version))),
        StageView::Digest { .. } => None,
        StageView::Executable(_) => Some(("chmod"@, seq!["+x"@, tmp_path_spec()])),
        StageView::Directory(_) => Some(("mkdir"@, seq!["-p"@, "/opt/nulnet/bin"@])),
        StageView::Install(_) => Some(
            ("mv"@, seq!["-f"@, tmp_path_spec(), install_path_spec()]),
        ),
        StageView::Restart => Some(
            ("setsid"@, seq!["sh"@, "-c"@, "sleep 3 && sudo systemctl restart nulnet"@]),
        ),
    }
}

/// Finds the command that a stage waits for.
pub fn command_for(stage: &Stage, urls: &UpdateUrls, version: &str) -> (res: Option<
    (String, Vec<String>),
>)
    ensures
        command_view(res) == command_of(stage@, urls@, version@),
{
    let mut args: Vec<String> = Vec::new();
    assert(views(args@) =~= seq![]);
    let program = match stage {
        Stage::Version => {
            args = fetch_args(urls.version_check_url.as_str(), version);
            "curl"
        },
        Stage::Download { .. } => {
            args = download_args(urls.binary_url.as_str(), version);
            "curl"
        },
        Stage::Checksum { .. } => {
            args = fetch_args(urls.checksum_url.as_str(), version);
            "curl"
        },
        Stage::Digest { .. } => return None,
        Stage::Executable { .. } => {
            put(&mut args, "+x");
            put(&mut args, tmp_path());
            assert(views(args@) =~= seq!["+x"@, tmp_path_spec()]);
            "chmod"
        },
        Stage::Directory { .. } => {
            put(&mut args, "-p");
            put(&mut args, "/opt/nulnet/bin");
            assert(views(args@) =~= seq!["-p"@, "/opt/nulnet/bin"@]);
            "mkdir"
        },
        Stage::Install { .. } => {
            put(&mut args, "-f");
            put(&mut args, tmp_path());
            put(&mut args, install_path());
            assert(views(args@) =~= seq!["-f"@, tmp_path_spec(), install_path_spec()]);
            "mv"
        },
        Stage::Restart => {
            // Detached, so that stopping the agent does not stop the restart.
            put(&mut args, "sh");
            put(&mut args, "-c");
            put(&mut args, "sleep 3 && sudo systemctl restart nulnet");
            assert(views(args@) =~= seq![
                "sh"@,
                "-c"@,
                "sleep 3 && sudo systemctl restart nulnet"@,
            ]);
            "setsid"
        },
    };
    Some((program.to_string(), args))
}

/// What came of what the update waited for.
pub enum Event {
    /// `curl` was run.
    Ran(CommandOutcome),
    /// The new binary was read.
    Content(Result<Vec<u8>, String>),
    /// A command ended well or not, or could not be run.
    Done(Result<bool, String>),
}

pub enum EventView {
    Ran(OutcomeView),
    Content(Result<Seq<u8>, Seq<char>>),
    Done(Result<bool, Seq<char>>),
}

impl View for Event {
    type V = EventView;

    open spec fn view(&self) -> EventView {
        match self {
            Event::Ran(outcome) => EventView::Ran(outcome@),
            Event::Content(content) => EventView::Content(
                match content {
                    Ok(bytes) => Ok(bytes@),
                    Err(e) => Err(e@),
                },
            ),
            Event::Done(done) => EventView::Done(
                match done {
                    Ok(success) => Ok(*success),
                    Err(e) => Err(e@),
                },
            ),
        }
    }
}

/// Where the update goes from here.
pub enum Next {
    /// It waits for this.
    Await(Stage),
    /// It is over.
    Over(Result<UpdateOutcome, String>),
}

pub enum NextView {
    Await(StageView),
    Over(Result<UpdateOutcome, Seq<char>>),
}

impl View for Next {
    type V = NextView;

    open spec fn view(&self) -> NextView {
        match self {
            Next::Await(stage) => NextView::Await(stage@),
            Next::Over(result) => NextView::Over(
                match result {
                    Ok(outcome) => Ok(*outcome),
                    Err(e) => Err(e@),
                },
            ),
        }
    }
}

/// What the agent does next: it removes the download if it is told to, sends
/// the lines, and goes on.
pub struct Progress {
    pub remove_download: bool,
    pub lines: Vec<String>,
    pub next: Next,
}

pub struct ProgressView {
    pub remove_download: bool,
    pub lines: Seq<Seq<char>>,
    pub next: NextView,
}

impl View for Progress {
    type V = ProgressView;

    open spec fn view(&self) -> ProgressView {
        ProgressView {
            remove_download: self.remove_download,
            lines: views(self.lines@),
            next: self.next@,
        }
    }
}

/// The update goes on, and says so.
pub open spec fn goes_on(lines: Seq<Seq<char>>, stage: StageView) -> ProgressView {
    ProgressView { remove_download: false, lines, next: NextView::Await(stage) }
}

/// The update has ended well.
pub open spec fn ends_well(lines: Seq<Seq<char>>, outcome: UpdateOutcome) -> ProgressView {
    ProgressView { remove_download: false, lines, next: NextView::Over(Ok(outcome)) }
}

/// The update could not go on at all: nothing is said but the result.
pub open spec fn breaks_off(message: Seq<char>) -> ProgressView {
    ProgressView { remove_download: false, lines: seq![], next: NextView::Over(Err(message)) }
}

/// The update has failed, and the client is told.
pub open spec fn fails(message: Seq<char>, remove_download: bool) -> ProgressView {
    ProgressView {
        remove_download,
        lines: seq![styled("red"@, message)],
        next: NextView::Over(Err(message)),
    }
}

fn go_on(lines: Vec<String>, stage: Stage) -> (res: Progress)
    ensures
        res@ == goes_on(views(lines@), stage@),
{
    Progress { remove_download: false, lines, next: Next::Await(stage) }
}

fn end_well(lines: Vec<String>, outcome: UpdateOutcome) -> (res: Progress)
    ensures
        res@ == ends_well(views(lines@), outcome),
{
    Progress { remove_download: false, lines, next: Next::Over(Ok(outcome)) }
}

fn break_off(message: String) -> (res: Progress)
    ensures
        res@ == breaks_off(message@),
{
    let lines: Vec<String> = Vec::new();
    assert(views(lines@) =~= seq![]);
    Progress { remove_download: false, lines, next: Next::Over(Err(message)) }
}

fn one_line(line: String) -> (res: Vec<String>)
    ensures
        views(res@) == seq![line@],
{
    let mut lines: Vec<String> = Vec::new();
    lines.push(line);
    assert(views(lines@) =~= seq![line@]);
    lines
}

fn no_line() -> (res: Vec<String>)
    ensures
        views(res@) == Seq::<Seq<char>>::empty(),
{
    let lines: Vec<String> = Vec::new();
    assert(views(lines@) =~= Seq::<Seq<char>>::empty());
    lines
}

fn fail(message: String, remove_download: bool) -> (res: Progress)
    ensures
        res@ == fails(message@, remove_download),
{
    let lines = one_line(red(message.as_str()));
    Progress { remove_download, lines, next: Next::Over(Err(message)) }
}

fn prefixed(prefix: &str, text: &str) -> (res: String)
    ensures
        res@ == prefix@ + text@,
{
    let mut res = prefix.to_string();
    res.append(text);
    res
}

/// How an update begins: with where it comes from, or not at all.
pub fn begin(urls: &Result<UpdateUrls, String>) -> (res: Progress)
    ensures
        res@ == match urls {
            Ok(_) => goes_on(
                seq![styled("dim"@, "Checking for updates..."@)],
                StageView::Version,
            ),
            Err(e) => breaks_off(e@),
        },
{
    match urls {
        Ok(_) => go_on(one_line(dim("Checking for updates...")), Stage::Version),
        Err(e) => break_off(e.clone()),
    }
}

/// Once the version on offer is known: a newer one is downloaded.
pub open spec fn after_version(
    label: Seq<char>,
    current: Seq<char>,
    offered: Result<Seq<char>, Seq<char>>,
) -> ProgressView {
    match offered {
        Err(e) => ProgressView {
            remove_download: false,
            lines: seq![styled("red"@, label + " unreachable: "@ + e)],
            next: NextView::Over(Err(label + " fetch failed: "@ + e)),
        },
        Ok(latest) => if latest.len() == 0 {
            ends_well(
                seq![styled("red"@, label + " version info is empty."@)],
                UpdateOutcome::UpToDate,
            )
        } else if !is_newer(latest, current) {
            ends_well(
                seq![
                    "  "@ + styled("dim"@, "version"@) + " "@ + current + "  "@ + styled(
                        "green"@,
                        "up to date"@,
                    ),
                ],
                UpdateOutcome::UpToDate,
            )
        } else {
            goes_on(
                seq![
                    "  "@ + styled("dim"@, "current"@) + "  "@ + current + "  "@ + styled(
                        "dim"@,
                        "→"@,
                    ) + "  "@ + latest,
                    ""@,
                    styled("dim"@, "  Downloading..."@),
                ],
                StageView::Download(latest),
            )
        },
    }
}

fn version_known(label: &str, current: &str, offered: Result<String, String>) -> (res: Progress)
    ensures
        res@ == after_version(label@, current@, text_view(offered)),
{
    let latest = match offered {
        Ok(latest) => latest,
        Err(e) => {
            let mut line = prefixed(label, " unreachable: ");
            line.append(e.as_str());
            let mut message = prefixed(label, " fetch failed: ");
            message.append(e.as_str());
            return Progress {
                remove_download: false,
                lines: one_line(red(line.as_str())),
                next: Next::Over(Err(message)),
            };
        },
    };
    if latest.as_str().is_empty() {
        let line = prefixed(label, " version info is empty.");
        return end_well(one_line(red(line.as_str())), UpdateOutcome::UpToDate);
    }
    if !semver_is_newer(latest.as_str(), current) {
        let mut line = prefixed("  ", dim("version").as_str());
        line.append(" ");
        line.append(current);
        line.append("  ");
        line.append(green("up to date").as_str());
        return end_well(one_line(line), UpdateOutcome::UpToDate);
    }
    let mut line = prefixed("  ", dim("current").as_str());
    line.append("  ");
    line.append(current);
    line.append("  ");
    line.append(dim("→").as_str());
    line.append("  ");
    line.append(latest.as_str());
    let mut lines = one_line(line);
    put(&mut lines, "");
    put(&mut lines, dim("  Downloading...").as_str());
    assert(views(lines@) =~= seq![
        line@,
        ""@,
        styled("dim"@, "  Downloading..."@),
    ]);
    go_on(lines, Stage::Download { latest })
}

/// Once the download has ended.
pub open spec fn after_download(latest: Seq<char>, outcome: OutcomeView) -> ProgressView {
    match outcome {
        OutcomeView::NotRun(e) => breaks_off("Failed to run curl: "@ + e),
        OutcomeView::Exited { success, stderr, .. } => if success {
            goes_on(seq![], StageView::Checksum(latest))
        } else {
            fails("Download failed: "@ + trimmed(stderr), false)
        },
    }
}

/// Whether a text is as long as a digest: 64 bytes.
pub open spec fn is_digest_length(text: Seq<char>) -> bool {
    encode_utf8(text).len() == 64
}

/// Once it is known whether there is a digest to check the download against.
pub open spec fn after_checksum(
    latest: Seq<char>,
    checksum: Result<Seq<char>, Seq<char>>,
) -> ProgressView {
    match checksum {
        Ok(expected) => if is_digest_length(expected) {
            goes_on(seq![], StageView::Digest { latest, expected })
        } else {
            goes_on(
                seq![styled("yellow"@, "  Checksum malformed, skipping verification"@)],
                StageView::Executable(latest),
            )
        },
        Err(_) => goes_on(
            seq![styled("dim"@, "  Checksum unavailable, skipping"@)],
            StageView::Executable(latest),
        ),
    }
}

/// Once the download has been read back: it has to have the digest.
pub open spec fn after_content(
    latest: Seq<char>,
    expected: Seq<char>,
    content: Result<Seq<u8>, Seq<char>>,
) -> ProgressView {
    match content {
        Err(e) => breaks_off("Failed to read downloaded binary: "@ + e),
        Ok(data) => if expected == hex_text(sha256_digest(data)) {
            goes_on(seq![styled("dim"@, "  Checksum verified"@)], StageView::Executable(latest))
        } else {
            fails("Checksum mismatch — aborting."@, true)
        },
    }
}

/// Once a command that is needed for the installation has ended.
pub open spec fn after_command(
    done: Result<bool, Seq<char>>,
    not_run: Seq<char>,
    failed: Seq<char>,
    well: ProgressView,
) -> ProgressView {
    match done {
        Err(e) => breaks_off(not_run + e),
        Ok(false) => fails(failed, true),
        Ok(true) => well,
    }
}

/// Once the restart is on its way, or is not.
pub open spec fn after_restart(done: Result<bool, Seq<char>>) -> ProgressView {
    match done {
        Ok(_) => ends_well(
            seq![styled("dim"@, "  Restarting in 3 s — connection will close."@)],
            UpdateOutcome::Installed { restart_scheduled: true },
        ),
        Err(e) => ends_well(
            seq![
                styled(
                    "red"@,
                    "Could not schedule restart: "@ + e + "  Run: sudo systemctl restart nulnet"@,
                ),
            ],
            UpdateOutcome::Installed { restart_scheduled: false },
        ),
    }
}

/// Whether an event is what a stage waits for.
pub open spec fn awaited(stage: StageView, event: EventView) -> bool {
    match stage {
        StageView::Version | StageView::Download(_) | StageView::Checksum(_) => event is Ran,
        StageView::Digest { .. } => event is Content,
        _ => event is Done,
    }
}

/// One step of an update.
pub open spec fn progress(
    config: UpdateConfig,
    current: Seq<char>,
    stage: StageView,
    event: EventView,
) -> ProgressView {
    match stage {
        StageView::Version => after_version(
            label_of(config),
            current,
            offered(config, fetched(event->Ran_0)),
        ),
        StageView::Download(latest) => after_download(latest, event->Ran_0),
        StageView::Checksum(latest) => after_checksum(latest, fetched(event->Ran_0)),
        StageView::Digest { latest, expected } => after_content(
            latest,
            expected,
            event->Content_0,
        ),
        StageView::Executable(latest) => after_command(
            event->Done_0,
            "chmod failed: "@,
            "chmod +x "@ + tmp_path_spec() + " failed"@,
            goes_on(seq![], StageView::Directory(latest)),
        ),
        StageView::Directory(latest) => after_command(
            event->Done_0,
            "mkdir -p failed: "@,
            "Could not create /opt/nulnet/bin"@,
            goes_on(seq![], StageView::Install(latest)),
        ),
        StageView::Install(latest) => after_command(
            event->Done_0,
            "mv failed: "@,
            "Install failed: mv "@ + tmp_path_spec() + " → "@ + install_path_spec() + " failed"@,
            goes_on(
                seq!["  "@ + styled("dim"@, "Installed"@) + " "@ + latest, ""@],
                StageView::Restart,
            ),
        ),
        StageView::Restart => after_restart(event->Done_0),
    }
}

/// Takes one step of an update: what was awaited has come.
pub fn step(config: &UpdateConfig, current: &str, stage: Stage, event: Event) -> (res: Progress)
    requires
        awaited(stage@, event@),
    ensures
        res@ == progress(*config, current@, stage@, event@),
{
    match (stage, event) {
        (Stage::Version, Event::Ran(outcome)) => version_known(
            source_label(config),
            current,
            latest_version(config, fetched_text(outcome)),
        ),
        (Stage::Download { latest }, Event::Ran(outcome)) => match outcome {
            CommandOutcome::NotRun(e) => break_off(prefixed("Failed to run curl: ", e.as_str())),
            CommandOutcome::Exited { success, status, stdout, stderr } => {
                if success {
                    go_on(no_line(), Stage::Checksum { latest })
                } else {
                    let reason = trim(stderr.as_str());
                    fail(prefixed("Download failed: ", reason.as_str()), false)
                }
            },
        },
        (Stage::Checksum { latest }, Event::Ran(outcome)) => match fetched_text(outcome) {
            Ok(expected) => {
                if expected.as_str().as_bytes().len() == 64 {
                    go_on(no_line(), Stage::Digest { latest, expected })
                } else {
                    let line = yellow("  Checksum malformed, skipping verification");
                    go_on(one_line(line), Stage::Executable { latest })
                }
            },
            Err(_) => {
                let line = dim("  Checksum unavailable, skipping");
                go_on(one_line(line), Stage::Executable { latest })
            },
        },
        (Stage::Digest { latest, expected }, Event::Content(content)) => match content {
            Ok(data) => {
                if sha256_matches(data.as_slice(), expected.as_str()) {
                    go_on(one_line(dim("  Checksum verified")), Stage::Executable { latest })
                } else {
                    fail("Checksum mismatch — aborting.".to_string(), true)
                }
            },
            Err(e) => break_off(prefixed("Failed to read downloaded binary: ", e.as_str())),
        },
        (Stage::Executable { latest }, Event::Done(done)) => match done {
            Ok(true) => go_on(no_line(), Stage::Directory { latest }),
            Ok(false) => {
                let mut message = prefixed("chmod +x ", tmp_path());
                message.append(" failed");
                fail(message, true)
            },
            Err(e) => break_off(prefixed("chmod failed: ", e.as_str())),
        },
        (Stage::Directory { latest }, Event::Done(done)) => match done {
            Ok(true) => go_on(no_line(), Stage::Install { latest }),
            Ok(false) => fail("Could not create /opt/nulnet/bin".to_string(), true),
            Err(e) => break_off(prefixed("mkdir -p failed: ", e.as_str())),
        },
        (Stage::Install { latest }, Event::Done(done)) => match done {
            Ok(true) => {
                let mut line = prefixed("  ", dim("Installed").as_str());
                line.append(" ");
                line.append(latest.as_str());
                let mut lines = one_line(line);
                put(&mut lines, "");
                assert(views(lines@) =~= seq![line@, ""@]);
                go_on(lines, Stage::Restart)
            },
            Ok(false) => {
                let mut message = prefixed("Install failed: mv ", tmp_path());
                message.append(" → ");
                message.append(install_path());
                message.append(" failed");
                fail(message, true)
            },
            Err(e) => break_off(prefixed("mv failed: ", e.as_str())),
        },
        (Stage::Restart, Event::Done(done)) => match done {
            Ok(_) => end_well(
                one_line(dim("  Restarting in 3 s — connection will close.")),
                UpdateOutcome::Installed { restart_scheduled: true },
            ),
            Err(e) => {
                let mut message = prefixed("Could not schedule restart: ", e.as_str());
                message.append("  Run: sudo systemctl restart nulnet");
                end_well(
                    one_line(red(message.as_str())),
                    UpdateOutcome::Installed { restart_scheduled: false },
                )
            },
        },
        _ => {
            assert(false);
            break_off(String::new())
        },
    }
}

// ─── Runs of an update ───────────────────────────────────────────────────────

/// Where an update stands after a run of events. It stands still once it is
/// over.
pub open spec fn standing(
    config: UpdateConfig,
    current: Seq<char>,
    events: Seq<EventView>,
) -> NextView
    decreases events.len(),
{
    if events.len() == 0 {
        NextView::Await(StageView::Version)
    } else {
        match standing(config, current, events.drop_last()) {
            NextView::Await(stage) => progress(config, current, stage, events.last()).next,
            over => over,
        }
    }
}

/// Whether each event of a run is what the update waited for.
pub open spec fn in_turn(config: UpdateConfig, current: Seq<char>, events: Seq<EventView>) -> bool
    decreases events.len(),
{
    events.len() > 0 ==> {
        &&& in_turn(config, current, events.drop_last())
        &&& match standing(config, current, events.drop_last()) {
            NextView::Await(stage) => awaited(stage, events.last()),
            NextView::Over(_) => false,
        }
    }
}

/// Whether a run has found `latest` on offer, newer than `current`.
pub open spec fn found_newer(
    config: UpdateConfig,
    current: Seq<char>,
    events: Seq<EventView>,
    latest: Seq<char>,
) -> bool {
    &&& events.len() > 0
    &&& events[0] is Ran
    &&& offered(config, fetched(events[0]->Ran_0)) == Ok::<Seq<char>, Seq<char>>(latest)
    &&& is_newer(latest, current)
}

/// Whether a run has downloaded the binary.
pub open spec fn downloaded(events: Seq<EventView>) -> bool {
    &&& events.len() > 1
    &&& events[1] matches EventView::Ran(OutcomeView::Exited { success, .. })
    &&& success
}

/// Whether there is a digest of the right length in what was fetched.
pub open spec fn has_digest(checksum: OutcomeView) -> bool {
    fetched(checksum) matches Ok(expected) && is_digest_length(expected)
}

/// How many events it takes to find, download and check a binary: one more
/// where there is a digest to check it against.
pub open spec fn events_to_check(events: Seq<EventView>) -> int {
    if has_digest(events[2]->Ran_0) {
        4
    } else {
        3
    }
}

/// Whether the first `count` of the commands that make the binary executable,
/// make room for it and put it in place have succeeded.
pub open spec fn commands_done(events: Seq<EventView>, count: int) -> bool {
    let start = events_to_check(events);
    &&& events.len() >= start + count
    &&& forall|i: int|
        start <= i < start + count ==> #[trigger] events[i] == EventView::Done(Ok(true))
}

/// Whether a run has checked the download: against the digest that was
/// fetched, or, where none of the right length was to be had, not at all.
pub open spec fn checked(events: Seq<EventView>) -> bool {
    &&& events.len() > 2
    &&& events[2] is Ran
    &&& match fetched(events[2]->Ran_0) {
        Ok(expected) if is_digest_length(expected) => {
            &&& events.len() > 3
            &&& events[3] matches EventView::Content(Ok(data))
            &&& hex_text(sha256_digest(data)) == expected
        },
        _ => true,
    }
}

/// Whether a run has found `latest`, downloaded it and checked it.
pub open spec fn is_fit(
    config: UpdateConfig,
    current: Seq<char>,
    events: Seq<EventView>,
    latest: Seq<char>,
) -> bool {
    &&& found_newer(config, current, events, latest)
    &&& downloaded(events)
    &&& checked(events)
}

/// What a run must have done to stand where it stands.
pub open spec fn accounted_for(
    config: UpdateConfig,
    current: Seq<char>,
    events: Seq<EventView>,
) -> bool {
    match standing(config, current, events) {
        NextView::Await(StageView::Version) => events.len() == 0,
        NextView::Await(StageView::Download(latest)) => {
            &&& events.len() == 1
            &&& found_newer(config, current, events, latest)
        },
        NextView::Await(StageView::Checksum(latest)) => {
            &&& events.len() == 2
            &&& found_newer(config, current, events, latest)
            &&& downloaded(events)
        },
        NextView::Await(StageView::Digest { latest, expected }) => {
            &&& events.len() == 3
            &&& found_newer(config, current, events, latest)
            &&& downloaded(events)
            &&& events[2] is Ran
            &&& fetched(events[2]->Ran_0) == Ok::<Seq<char>, Seq<char>>(expected)
            &&& is_digest_length(expected)
        },
        NextView::Await(StageView::Executable(latest)) => {
            &&& is_fit(config, current, events, latest)
            &&& events.len() == events_to_check(events)
        },
        NextView::Await(StageView::Directory(latest)) => {
            &&& is_fit(config, current, events, latest)
            &&& events.len() == events_to_check(events) + 1
            &&& commands_done(events, 1)
        },
        NextView::Await(StageView::Install(latest)) => {
            &&& is_fit(config, current, events, latest)
            &&& events.len() == events_to_check(events) + 2
            &&& commands_done(events, 2)
        },
        NextView::Await(StageView::Restart) => {
            &&& exists|latest: Seq<char>| is_fit(config, current, events, latest)
            &&& events.len() == events_to_check(events) + 3
            &&& commands_done(events, 3)
        },
        NextView::Over(Ok(UpdateOutcome::Installed { restart_scheduled })) => {
            &&& exists|latest: Seq<char>| is_fit(config, current, events, latest)
            &&& events.len() == events_to_check(events) + 4
            &&& commands_done(events, 3)
            &&& events.last() matches EventView::Done(restart)
            &&& restart_scheduled == restart is Ok
        },
        NextView::Over(Ok(UpdateOutcome::UpToDate)) => {
            &&& events.len() == 1
            &&& events[0] is Ran
            &&& offered(config, fetched(events[0]->Ran_0)) matches Ok(latest)
            &&& latest.len() == 0 || !is_newer(latest, current)
        },
        NextView::Over(Err(_)) => true,
    }
}

/// Whatever comes of the outside commands, the running binary is replaced only
/// after a newer version was found, its binary was downloaded, and the binary
/// had the digest that was fetched for it (if one of the right length was to
/// be had); it is replaced only if each command that this takes succeeds. An
/// update that ends as up to date has done nothing but ask.
pub proof fn update_is_vetted(config: UpdateConfig, current: Seq<char>, events: Seq<EventView>)
    requires
        in_turn(config, current, events),
    ensures
        accounted_for(config, current, events),
    decreases events.len(),
{
    if events.len() > 0 {
        let before = events.drop_last();
        update_is_vetted(config, current, before);
        lemma_accounted_step(config, current, before, events.last());
        assert(before.push(events.last()) =~= events);
    }
}

/// What a run has done, it has done once more has happened.
proof fn lemma_fit_stays(
    config: UpdateConfig,
    current: Seq<char>,
    events: Seq<EventView>,
    event: EventView,
    latest: Seq<char>,
    count: int,
)
    requires
        is_fit(config, current, events, latest),
        0 <= count,
        commands_done(events, count),
    ensures
        is_fit(config, current, events.push(event), latest),
        events_to_check(events.push(event)) == events_to_check(events),
        commands_done(events.push(event), count),
        event == EventView::Done(Ok(true)) && events.len() == events_to_check(events) + count
            ==> commands_done(events.push(event), count + 1),
{
    let more = events.push(event);
    assert(forall|i: int| 0 <= i < events.len() ==> more[i] == events[i]);
}

proof fn lemma_accounted_step(
    config: UpdateConfig,
    current: Seq<char>,
    events: Seq<EventView>,
    event: EventView,
)
    requires
        accounted_for(config, current, events),
        standing(config, current, events) matches NextView::Await(stage) && awaited(stage, event),
    ensures
        accounted_for(config, current, events.push(event)),
{
    let more = events.push(event);
    lemma_standing_push(config, current, events, event);
    assert(forall|i: int| 0 <= i < events.len() ==> more[i] == events[i]);
    assert(more[events.len() as int] == event);
    match standing(config, current, events)->Await_0 {
        StageView::Executable(latest) => {
            lemma_fit_stays(config, current, events, event, latest, 0);
        },
        StageView::Directory(latest) => {
            lemma_fit_stays(config, current, events, event, latest, 1);
        },
        StageView::Install(latest) => {
            lemma_fit_stays(config, current, events, event, latest, 2);
        },
        StageView::Restart => {
            let latest = choose|latest: Seq<char>| is_fit(config, current, events, latest);
            lemma_fit_stays(config, current, events, event, latest, 3);
        },
        _ => {},
    }
}

/// The events of an update on which everything goes well: the version on
/// offer, the download, the digest, the content if there is a digest to check
/// it against, three commands, and the restart.
pub open spec fn good_run(
    version: OutcomeView,
    download: OutcomeView,
    checksum: OutcomeView,
    data: Seq<u8>,
    restart: Result<bool, Seq<char>>,
) -> Seq<EventView> {
    let done = EventView::Done(Ok(true));
    let fetched = seq![EventView::Ran(version), EventView::Ran(download), EventView::Ran(checksum)];
    let checked = if has_digest(checksum) {
        fetched.push(EventView::Content(Ok(data)))
    } else {
        fetched
    };
    checked.push(done).push(done).push(done).push(EventView::Done(restart))
}

/// An update on which everything goes well installs the new version: it is
/// newer, it is downloaded, its binary has the digest that was fetched (where
/// none of the right length was to be had, it goes without), and every command
/// succeeds. Only whether the restart is on its way is left to the last event.
pub proof fn good_update_installs(
    config: UpdateConfig,
    current: Seq<char>,
    latest: Seq<char>,
    version: OutcomeView,
    download: OutcomeView,
    checksum: OutcomeView,
    data: Seq<u8>,
    restart: Result<bool, Seq<char>>,
)
    requires
        offered(config, fetched(version)) == Ok::<Seq<char>, Seq<char>>(latest),
        latest.len() > 0,
        is_newer(latest, current),
        download matches OutcomeView::Exited { success, .. } && success,
        has_digest(checksum) ==> fetched(checksum) == Ok::<Seq<char>, Seq<char>>(
            hex_text(sha256_digest(data)),
        ),
    ensures
        standing(config, current, good_run(version, download, checksum, data, restart))
            == NextView::Over(
            Ok(UpdateOutcome::Installed { restart_scheduled: restart is Ok }),
        ),
{
    let fetched = seq![EventView::Ran(version), EventView::Ran(download), EventView::Ran(checksum)];
    lemma_good_fetches(config, current, latest, version, download, checksum);
    if has_digest(checksum) {
        lemma_good_digest(config, current, latest, hex_text(sha256_digest(data)), data, fetched);
        lemma_good_commands(
            config,
            current,
            latest,
            fetched.push(EventView::Content(Ok(data))),
            restart,
        );
    } else {
        lemma_good_commands(config, current, latest, fetched, restart);
    }
}

/// A newer version is found and downloaded, and its digest is asked for.
proof fn lemma_good_fetches(
    config: UpdateConfig,
    current: Seq<char>,
    latest: Seq<char>,
    version: OutcomeView,
    download: OutcomeView,
    checksum: OutcomeView,
)
    requires
        offered(config, fetched(version)) == Ok::<Seq<char>, Seq<char>>(latest),
        latest.len() > 0,
        is_newer(latest, current),
        download matches OutcomeView::Exited { success, .. } && success,
    ensures
        standing(
            config,
            current,
            seq![EventView::Ran(version), EventView::Ran(download), EventView::Ran(checksum)],
        ) == NextView::Await(
            if has_digest(checksum) {
                StageView::Digest { latest, expected: fetched(checksum)->Ok_0 }
            } else {
                StageView::Executable(latest)
            },
        ),
{
    let start: Seq<EventView> = seq![];
    let asked = start.push(EventView::Ran(version));
    let loaded = asked.push(EventView::Ran(download));
    assert(standing(config, current, asked) == NextView::Await(StageView::Download(latest))) by {
        lemma_standing_push(config, current, start, EventView::Ran(version));
    }
    assert(standing(config, current, loaded) == NextView::Await(StageView::Checksum(latest))) by {
        lemma_standing_push(config, current, asked, EventView::Ran(download));
    }
    lemma_standing_push(config, current, loaded, EventView::Ran(checksum));
    assert(loaded.push(EventView::Ran(checksum)) =~= seq![
        EventView::Ran(version),
        EventView::Ran(download),
        EventView::Ran(checksum),
    ]);
}

/// A download with the right digest is taken.
proof fn lemma_good_digest(
    config: UpdateConfig,
    current: Seq<char>,
    latest: Seq<char>,
    expected: Seq<char>,
    data: Seq<u8>,
    events: Seq<EventView>,
)
    requires
        standing(config, current, events) == NextView::Await(
            StageView::Digest { latest, expected },
        ),
        expected == hex_text(sha256_digest(data)),
    ensures
        standing(config, current, events.push(EventView::Content(Ok(data)))) == NextView::Await(
            StageView::Executable(latest),
        ),
{
    lemma_standing_push(config, current, events, EventView::Content(Ok(data)));
}

/// Three commands that succeed install what was downloaded.
proof fn lemma_good_commands(
    config: UpdateConfig,
    current: Seq<char>,
    latest: Seq<char>,
    events: Seq<EventView>,
    restart: Result<bool, Seq<char>>,
)
    requires
        standing(config, current, events) == NextView::Await(StageView::Executable(latest)),
    ensures
        ({
            let done = EventView::Done(Ok(true));
            standing(
                config,
                current,
                events.push(done).push(done).push(done).push(EventView::Done(restart)),
            ) == NextView::Over(Ok(UpdateOutcome::Installed { restart_scheduled: restart is Ok }))
        }),
{
    let done = EventView::Done(Ok(true));
    let one = events.push(done);
    let two = one.push(done);
    let three = two.push(done);
    assert(standing(config, current, one) == NextView::Await(StageView::Directory(latest))) by {
        lemma_standing_push(config, current, events, done);
    }
    assert(standing(config, current, two) == NextView::Await(StageView::Install(latest))) by {
        lemma_standing_push(config, current, one, done);
    }
    assert(standing(config, current, three) == NextView::Await(StageView::Restart)) by {
        lemma_standing_push(config, current, two, done);
    }
    lemma_standing_push(config, current, three, EventView::Done(restart));
}

proof fn lemma_standing_push(
    config: UpdateConfig,
    current: Seq<char>,
    events: Seq<EventView>,
    event: EventView,
)
    ensures
        standing(config, current, events.push(event)) == match standing(config, current, events) {
            NextView::Await(stage) => progress(config, current, stage, event).next,
            over => over,
        },
{
    assert(events.push(event).drop_last() =~= events);
}

/// Once the digest of the download is known to differ from the one that was
/// fetched, the update is over, the download is removed, and nothing was
/// installed.
pub proof fn mismatch_ends_the_update(
    config: UpdateConfig,
    current: Seq<char>,
    latest: Seq<char>,
    expected: Seq<char>,
    data: Seq<u8>,
)
    requires
        hex_text(sha256_digest(data)) != expected,
    ensures
        ({
            let after = progress(
                config,
                current,
                StageView::Digest { latest, expected },
                EventView::Content(Ok(data)),
            );
            &&& after.remove_download
            &&& after.next matches NextView::Over(Err(_))
        }),
{
}

/// A step leads forward: no stage of an update comes twice, so that every
/// update is over after eight steps at most.
pub proof fn update_ends(config: UpdateConfig, current: Seq<char>, events: Seq<EventView>)
    requires
        in_turn(config, current, events),
    ensures
        events.len() <= 8,
        events.len() == 8 ==> standing(config, current, events) is Over,
{
    lemma_rank(config, current, events);
}

/// How far along a stage is.
pub open spec fn rank(next: NextView) -> nat {
    match next {
        NextView::Await(StageView::Version) => 0,
        NextView::Await(StageView::Download(_)) => 1,
        NextView::Await(StageView::Checksum(_)) => 2,
        NextView::Await(StageView::Digest { .. }) => 3,
        NextView::Await(StageView::Executable(_)) => 4,
        NextView::Await(StageView::Directory(_)) => 5,
        NextView::Await(StageView::Install(_)) => 6,
        NextView::Await(StageView::Restart) => 7,
        NextView::Over(_) => 8,
    }
}

proof fn lemma_rank(config: UpdateConfig, current: Seq<char>, events: Seq<EventView>)
    requires
        in_turn(config, current, events),
    ensures
        events.len() <= rank(standing(config, current, events)),
    decreases events.len(),
{
    if events.len() > 0 {
        lemma_rank(config, current, events.drop_last());
    }
}

// ─── What holds of sources ───────────────────────────────────────────────────

/// Without a CDN, updates come from the latest release on GitHub: the binary
/// has the name of the architecture's artifact below the download address, and
/// its digest lies beside it. There is no source for another architecture.
pub proof fn github_keeps_each_artifact_by_its_name(config: UpdateConfig, arch: Seq<char>)
    requires
        !config.has_cdn(),
    ensures
        urls_of(config, arch) is Ok <==> arch == "x86_64"@ || arch == "aarch64"@,
        urls_of(config, arch) matches Err(e) ==> e
            == "unsupported CPU architecture for prebuilt binaries: "@ + arch,
        urls_of(config, arch) matches Ok(urls) ==> {
            &&& artifact_name(arch) matches Some(artifact)
            &&& urls.binary_url == "https://github.com/nulnet/nulnet/releases/latest/download"@
                + "/"@ + artifact
            &&& urls.checksum_url == urls.binary_url + ".sha256"@
            &&& urls.version_check_url
                == "https://api.github.com/repos/nulnet/nulnet/releases/latest"@
            &&& urls.source_label == "GitHub"@
            &&& arch == "x86_64"@ ==> urls.binary_url
                == "https://github.com/nulnet/nulnet/releases/latest/download/nulnet"@
            &&& arch == "aarch64"@ ==> urls.binary_url
                == "https://github.com/nulnet/nulnet/releases/latest/download/nulnet-aarch64"@
        },
{
    two_architectures_have_a_binary(arch);
    let base = "https://github.com/nulnet/nulnet/releases/latest/download"@;
    reveal_strlit("https://github.com/nulnet/nulnet/releases/latest/download");
    reveal_strlit("https://github.com/nulnet/nulnet/releases/latest/download/nulnet");
    reveal_strlit("https://github.com/nulnet/nulnet/releases/latest/download/nulnet-aarch64");
    reveal_strlit("nulnet");
    reveal_strlit("nulnet-aarch64");
    reveal_strlit("/");
    if let Some(artifact) = artifact_name(arch) {
        assert(base + "/"@ + (artifact + ".sha256"@) =~= base + "/"@ + artifact + ".sha256"@);
        assert(base + "/"@ + "nulnet"@
            =~= "https://github.com/nulnet/nulnet/releases/latest/download/nulnet"@);
        assert(base + "/"@ + "nulnet-aarch64"@
            =~= "https://github.com/nulnet/nulnet/releases/latest/download/nulnet-aarch64"@);
    }
}

/// With a CDN, whatever the architecture, updates come from three files below
/// its base, which is taken without white space around it and slashes at its
/// end.
pub proof fn cdn_keeps_three_files(
    config: UpdateConfig,
    arch: Seq<char>,
    left: Seq<char>,
    base: Seq<char>,
    slashes: Seq<char>,
    right: Seq<char>,
)
    requires
        config.cdn matches Some(s) && s@ == left + (base + slashes) + right,
        forall|i: int| 0 <= i < left.len() ==> is_white_space(#[trigger] left[i]),
        forall|i: int| 0 <= i < right.len() ==> is_white_space(#[trigger] right[i]),
        forall|i: int| 0 <= i < slashes.len() ==> #[trigger] slashes[i] == '/',
        base.len() > 0,
        !is_white_space(base[0]),
        base.last() != '/',
        slashes.len() == 0 ==> !is_white_space(base.last()),
    ensures
        ({
            &&& urls_of(config, arch) matches Ok(urls)
            &&& urls.version_check_url == base + "/version.txt"@
            &&& urls.binary_url == base + "/nulnet"@
            &&& urls.checksum_url == base + "/nulnet.sha256"@
            &&& urls.checksum_url == urls.binary_url + ".sha256"@
            &&& urls.source_label == "CDN"@
        }),
{
    let s = config.written_base();
    assert(s[left.len() as int] == base[0]);
    cdn_is_used_when_named(config);
    cdn_address_is_the_base_and_the_file(left, base, slashes, right, "/version.txt"@);
    cdn_address_is_the_base_and_the_file(left, base, slashes, right, "/nulnet"@);
    cdn_address_is_the_base_and_the_file(left, base, slashes, right, "/nulnet.sha256"@);
    reveal_strlit("/nulnet");
    reveal_strlit("/nulnet.sha256");
    reveal_strlit(".sha256");
    assert("/nulnet.sha256"@ =~= "/nulnet"@ + ".sha256"@);
    assert(base + "/nulnet.sha256"@ =~= base + "/nulnet"@ + ".sha256"@);
}

/// A release is called what its first member `tag_name` says, if that is a
/// text, without white space around it. A document without it, or none at all,
/// names no release, and it is said why.
pub proof fn tag_is_the_member_tag_name(
    members: Seq<(Seq<char>, ScalarView)>,
    i: int,
    left: Seq<char>,
    tag: Seq<char>,
    right: Seq<char>,
    reason: Seq<char>,
)
    requires
        0 <= i <= members.len(),
        forall|j: int| 0 <= j < i ==> (#[trigger] members[j]).0 != "tag_name"@,
        i < members.len() ==> members[i].0 == "tag_name"@,
        forall|j: int| 0 <= j < left.len() ==> is_white_space(#[trigger] left[j]),
        forall|j: int| 0 <= j < right.len() ==> is_white_space(#[trigger] right[j]),
        tag.len() > 0 && !is_white_space(tag[0]) && !is_white_space(tag.last()),
    ensures
        i < members.len() && members[i].1 == ScalarView::Str(left + tag + right) ==> tag_in(
            Ok(members),
        ) == Ok::<Seq<char>, Seq<char>>(tag),
        i < members.len() && members[i].1 == ScalarView::Str(left) ==> tag_in(Ok(members)) == Ok::<
            Seq<char>,
            Seq<char>,
        >(seq![]),
        i == members.len() || members[i].1 !is Str ==> tag_in(Ok(members)) == Err::<Seq<char>, _>(
            "GitHub API response missing tag_name"@,
        ),
        tag_in(Err(reason)) == Err::<Seq<char>, _>("invalid GitHub API response: "@ + reason),
{
    trimming_leaves_the_middle(left, tag, right, CharClass::White);
    trimming_takes_the_class_off(left, CharClass::White);
    assert(trimmed(left) =~= seq![]);
    if i < members.len() {
        first_member_counts(members, i);
    } else {
        missing_member_is_not_found(members, "tag_name"@);
    }
}

/// What `curl` fetched is taken without white space around it; if `curl` fails
/// or cannot be run, it is said why.
pub proof fn fetched_text_is_what_curl_printed(
    left: Seq<char>,
    text: Seq<char>,
    right: Seq<char>,
    status: Seq<char>,
    other: Seq<char>,
)
    requires
        forall|j: int| 0 <= j < left.len() ==> is_white_space(#[trigger] left[j]),
        forall|j: int| 0 <= j < right.len() ==> is_white_space(#[trigger] right[j]),
        text.len() > 0 && !is_white_space(text[0]) && !is_white_space(text.last()),
    ensures
        fetched(
            OutcomeView::Exited {
                success: true,
                status,
                stdout: left + text + right,
                stderr: other,
            },
        ) == Ok::<Seq<char>, Seq<char>>(text),
        fetched(OutcomeView::Exited { success: true, status, stdout: left, stderr: other }) == Ok::<
            Seq<char>,
            Seq<char>,
        >(seq![]),
        fetched(
            OutcomeView::Exited {
                success: false,
                status,
                stdout: other,
                stderr: left + text + right,
            },
        ) == Err::<Seq<char>, _>("curl exited "@ + status + ": "@ + text),
        fetched(OutcomeView::Exited { success: false, status, stdout: other, stderr: left })
            == Err::<Seq<char>, _>("curl exited "@ + status + ": "@),
        fetched(OutcomeView::NotRun(other)) == Err::<Seq<char>, _>("curl error: "@ + other),
{
    trimming_leaves_the_middle(left, text, right, CharClass::White);
    trimming_takes_the_class_off(left, CharClass::White);
    assert(trimmed(left) =~= seq![]);
    let message = "curl exited "@ + status + ": "@;
    assert(message + Seq::<char>::empty() =~= message);
}

/// A CDN sends the version itself; what GitHub sends is read as a document. If
/// nothing came, there is nothing on offer.
pub proof fn offer_is_what_the_source_sends(
    config: UpdateConfig,
    body: Seq<char>,
    reason: Seq<char>,
)
    ensures
        offered(config, Err(reason)) == Err::<Seq<char>, _>(reason),
        config.has_cdn() ==> offered(config, Ok(body)) == Ok::<Seq<char>, Seq<char>>(body),
        !config.has_cdn() ==> offered(config, Ok(body)) == tag_in(json_document(body)),
{
}

// ─── What holds of each step ─────────────────────────────────────────────────

/// Text in a style stands between the style's tags.
pub proof fn style_surrounds_the_text(text: Seq<char>)
    ensures
        styled("dim"@, text) == "[dim]"@ + text + "[/dim]"@,
        styled("green"@, text) == "[green]"@ + text + "[/green]"@,
        styled("yellow"@, text) == "[yellow]"@ + text + "[/yellow]"@,
        styled("red"@, text) == "[red]"@ + text + "[/red]"@,
{
    reveal_strlit("[");
    reveal_strlit("]");
    reveal_strlit("[/");
    reveal_strlit("dim");
    reveal_strlit("green");
    reveal_strlit("yellow");
    reveal_strlit("red");
    reveal_strlit("[dim]");
    reveal_strlit("[/dim]");
    reveal_strlit("[green]");
    reveal_strlit("[/green]");
    reveal_strlit("[yellow]");
    reveal_strlit("[/yellow]");
    reveal_strlit("[red]");
    reveal_strlit("[/red]");
    assert(styled("dim"@, text) =~= "[dim]"@ + text + "[/dim]"@);
    assert(styled("green"@, text) =~= "[green]"@ + text + "[/green]"@);
    assert(styled("yellow"@, text) =~= "[yellow]"@ + text + "[/yellow]"@);
    assert(styled("red"@, text) =~= "[red]"@ + text + "[/red]"@);
}

/// What a step may come to: the update goes on, has ended well, breaks off
/// without a word, or fails and says so in red. Only a failure removes the
/// download, and only where it is told to.
pub proof fn steps_come_to_this(
    lines: Seq<Seq<char>>,
    stage: StageView,
    outcome: UpdateOutcome,
    message: Seq<char>,
    remove: bool,
)
    ensures
        goes_on(lines, stage).lines == lines && goes_on(lines, stage).next == NextView::Await(stage)
            && !goes_on(lines, stage).remove_download,
        ends_well(lines, outcome).lines == lines && ends_well(lines, outcome).next
            == NextView::Over(Ok(outcome)) && !ends_well(lines, outcome).remove_download,
        breaks_off(message).lines.len() == 0 && breaks_off(message).next == NextView::Over(
            Err(message),
        ) && !breaks_off(message).remove_download,
        fails(message, remove).lines == seq!["[red]"@ + message + "[/red]"@] && fails(
            message,
            remove,
        ).next == NextView::Over(Err(message)) && fails(message, remove).remove_download == remove,
{
    style_surrounds_the_text(message);
}

/// The commands of an update: three fetches by `curl`, with timeouts and the
/// agent's name, then what installs the binary and restarts the agent.
pub proof fn commands_are_those_of_an_installation(
    latest: Seq<char>,
    expected: Seq<char>,
    urls: UrlsView,
    version: Seq<char>,
)
    ensures
        command_of(StageView::Version, urls, version) == Some(
            (
                "curl"@,
                seq![
                    "-fsSL"@,
                    "--connect-timeout"@,
                    "10"@,
                    "--max-time"@,
                    "30"@,
                    "-A"@,
                    "nulnet/"@ + version,
                    urls.version_check_url,
                ],
            ),
        ),
        command_of(StageView::Download(latest), urls, version) == Some(
            (
                "curl"@,
                seq![
                    "-fSL"@,
                    "--connect-timeout"@,
                    "10"@,
                    "--max-time"@,
                    "120"@,
                    "-A"@,
                    "nulnet/"@ + version,
                    "-o"@,
                    "/tmp/nulnet"@,
                    urls.binary_url,
                ],
            ),
        ),
        command_of(StageView::Checksum(latest), urls, version) == Some(
            (
                "curl"@,
                seq![
                    "-fsSL"@,
                    "--connect-timeout"@,
                    "10"@,
                    "--max-time"@,
                    "30"@,
                    "-A"@,
                    "nulnet/"@ + version,
                    urls.checksum_url,
                ],
            ),
        ),
        command_of(StageView::Digest { latest, expected }, urls, version) is None,
        command_of(StageView::Executable(latest), urls, version) == Some(
            ("chmod"@, seq!["+x"@, "/tmp/nulnet"@]),
        ),
        command_of(StageView::Directory(latest), urls, version) == Some(
            ("mkdir"@, seq!["-p"@, "/opt/nulnet/bin"@]),
        ),
        command_of(StageView::Install(latest), urls, version) == Some(
            ("mv"@, seq!["-f"@, "/tmp/nulnet"@, "/opt/nulnet/bin/nulnet"@]),
        ),
        command_of(StageView::Restart, urls, version) == Some(
            ("setsid"@, seq!["sh"@, "-c"@, "sleep 3 && sudo systemctl restart nulnet"@]),
        ),
{
}

/// The version on offer decides: a newer one is downloaded, any other leaves
/// things as they are, and the client is told both versions. Without an offer
/// the update fails.
pub proof fn only_a_newer_version_is_downloaded(
    config: UpdateConfig,
    current: Seq<char>,
    outcome: OutcomeView,
)
    ensures
        ({
            let after = progress(config, current, StageView::Version, EventView::Ran(outcome));
            let label = if config.has_cdn() {
                "CDN"@
            } else {
                "GitHub"@
            };
            &&& !after.remove_download
            &&& match offered(config, fetched(outcome)) {
                Err(e) => {
                    &&& after.next == NextView::Over(Err(label + " fetch failed: "@ + e))
                    &&& after.lines == seq![
                        "[red]"@ + (label + " unreachable: "@ + e) + "[/red]"@,
                    ]
                },
                Ok(latest) => {
                    &&& latest.len() == 0 ==> {
                        &&& after.next == NextView::Over(Ok(UpdateOutcome::UpToDate))
                        &&& after.lines == seq![
                            "[red]"@ + (label + " version info is empty."@) + "[/red]"@,
                        ]
                    }
                    &&& latest.len() > 0 && !is_newer(latest, current) ==> {
                        &&& after.next == NextView::Over(Ok(UpdateOutcome::UpToDate))
                        &&& after.lines == seq![
                            "  [dim]version[/dim] "@ + current + "  [green]up to date[/green]"@,
                        ]
                    }
                    &&& latest.len() > 0 && is_newer(latest, current) ==> {
                        &&& after.next == NextView::Await(StageView::Download(latest))
                        &&& after.lines == seq![
                            "  [dim]current[/dim]  "@ + current + "  [dim]→[/dim]  "@ + latest,
                            ""@,
                            "[dim]  Downloading...[/dim]"@,
                        ]
                    }
                },
            }
        }),
{
    let (found, old) = (offered(config, fetched(outcome)), current);
    let label = label_of(config);
    if let Ok(latest) = found {
        style_surrounds_the_text(label + " version info is empty."@);
        lemma_version_lines(current, latest);
    } else if let Err(e) = found {
        style_surrounds_the_text(label + " unreachable: "@ + e);
    }
}

proof fn lemma_version_lines(current: Seq<char>, latest: Seq<char>)
    ensures
        "  "@ + styled("dim"@, "version"@) + " "@ + current + "  "@ + styled(
            "green"@,
            "up to date"@,
        ) == "  [dim]version[/dim] "@ + current + "  [green]up to date[/green]"@,
        "  "@ + styled("dim"@, "current"@) + "  "@ + current + "  "@ + styled("dim"@, "→"@)
            + "  "@ + latest == "  [dim]current[/dim]  "@ + current + "  [dim]→[/dim]  "@ + latest,
        styled("dim"@, "  Downloading..."@) == "[dim]  Downloading...[/dim]"@,
{
    style_surrounds_the_text("version"@);
    style_surrounds_the_text("up to date"@);
    style_surrounds_the_text("current"@);
    style_surrounds_the_text("→"@);
    style_surrounds_the_text("  Downloading..."@);
    reveal_strlit("[dim]");
    reveal_strlit("[/dim]");
    reveal_strlit("[green]");
    reveal_strlit("[/green]");
    reveal_strlit(" ");
    reveal_strlit("  ");
    reveal_strlit("version");
    reveal_strlit("current");
    reveal_strlit("up to date");
    reveal_strlit("→");
    reveal_strlit("  Downloading...");
    reveal_strlit("  [dim]version[/dim] ");
    reveal_strlit("  [green]up to date[/green]");
    reveal_strlit("  [dim]current[/dim]  ");
    reveal_strlit("  [dim]→[/dim]  ");
    reveal_strlit("[dim]  Downloading...[/dim]");
    assert("  "@ + ("[dim]"@ + "version"@ + "[/dim]"@) + " "@ =~= "  [dim]version[/dim] "@);
    assert("  "@ + ("[green]"@ + "up to date"@ + "[/green]"@)
        =~= "  [green]up to date[/green]"@);
    assert("  "@ + ("[dim]"@ + "current"@ + "[/dim]"@) + "  "@ =~= "  [dim]current[/dim]  "@);
    assert("  "@ + ("[dim]"@ + "→"@ + "[/dim]"@) + "  "@ =~= "  [dim]→[/dim]  "@);
    assert("[dim]"@ + "  Downloading..."@ + "[/dim]"@ =~= "[dim]  Downloading...[/dim]"@);
    let (dim, green) = (styled("dim"@, "→"@), styled("green"@, "up to date"@));
    let start = "  [dim]version[/dim] "@ + current;
    assert(start + "  "@ + green =~= start + ("  "@ + green));
    let start = "  [dim]current[/dim]  "@ + current;
    assert(start + "  "@ + dim + "  "@ + latest =~= start + ("  "@ + dim + "  "@) + latest);
}

/// A download that ends well is checked; one that does not ends the update.
/// A digest of 64 bytes is checked, without one the download is taken as it
/// is, and the client is told.
pub proof fn download_is_checked_where_it_can_be(
    config: UpdateConfig,
    current: Seq<char>,
    latest: Seq<char>,
    outcome: OutcomeView,
)
    ensures
        ({
            let after = progress(
                config,
                current,
                StageView::Download(latest),
                EventView::Ran(outcome),
            );
            &&& !after.remove_download
            &&& match outcome {
                OutcomeView::NotRun(e) => {
                    &&& after.next == NextView::Over(Err("Failed to run curl: "@ + e))
                    &&& after.lines.len() == 0
                },
                OutcomeView::Exited { success, stderr, .. } => {
                    &&& success ==> after.next == NextView::Await(StageView::Checksum(latest))
                        && after.lines.len() == 0
                    &&& !success ==> after.next == NextView::Over(
                        Err("Download failed: "@ + trimmed(stderr)),
                    ) && after.lines == seq![
                        "[red]"@ + ("Download failed: "@ + trimmed(stderr)) + "[/red]"@,
                    ]
                },
            }
        }),
        ({
            let after = progress(
                config,
                current,
                StageView::Checksum(latest),
                EventView::Ran(outcome),
            );
            &&& !after.remove_download
            &&& match fetched(outcome) {
                Ok(expected) => {
                    &&& encode_utf8(expected).len() == 64 ==> after.next == NextView::Await(
                        StageView::Digest { latest, expected },
                    ) && after.lines.len() == 0
                    &&& encode_utf8(expected).len() != 64 ==> after.next == NextView::Await(
                        StageView::Executable(latest),
                    ) && after.lines == seq![
                        "[yellow]  Checksum malformed, skipping verification[/yellow]"@,
                    ]
                },
                Err(_) => {
                    &&& after.next == NextView::Await(StageView::Executable(latest))
                    &&& after.lines == seq!["[dim]  Checksum unavailable, skipping[/dim]"@]
                },
            }
        }),
{
    if let OutcomeView::Exited { stderr, .. } = outcome {
        style_surrounds_the_text("Download failed: "@ + trimmed(stderr));
    }
    style_surrounds_the_text("  Checksum malformed, skipping verification"@);
    style_surrounds_the_text("  Checksum unavailable, skipping"@);
    reveal_strlit("[dim]");
    reveal_strlit("[/dim]");
    reveal_strlit("[yellow]");
    reveal_strlit("[/yellow]");
    reveal_strlit("  Checksum malformed, skipping verification");
    reveal_strlit("  Checksum unavailable, skipping");
    reveal_strlit("[yellow]  Checksum malformed, skipping verification[/yellow]");
    reveal_strlit("[dim]  Checksum unavailable, skipping[/dim]");
    assert("[yellow]"@ + "  Checksum malformed, skipping verification"@ + "[/yellow]"@
        =~= "[yellow]  Checksum malformed, skipping verification[/yellow]"@);
    assert("[dim]"@ + "  Checksum unavailable, skipping"@ + "[/dim]"@
        =~= "[dim]  Checksum unavailable, skipping[/dim]"@);
}

/// A download whose digest is the one that was fetched is taken; any other is
/// removed, and the update fails.
pub proof fn digest_decides(
    config: UpdateConfig,
    current: Seq<char>,
    latest: Seq<char>,
    expected: Seq<char>,
    content: Result<Seq<u8>, Seq<char>>,
)
    ensures
        ({
            let after = progress(
                config,
                current,
                StageView::Digest { latest, expected },
                EventView::Content(content),
            );
            match content {
                Err(e) => {
                    &&& after.next == NextView::Over(
                        Err("Failed to read downloaded binary: "@ + e),
                    )
                    &&& after.lines.len() == 0
                    &&& !after.remove_download
                },
                Ok(data) => {
                    &&& hex_text(sha256_digest(data)) == expected ==> after.next == NextView::Await(
                        StageView::Executable(latest),
                    ) && after.lines == seq!["[dim]  Checksum verified[/dim]"@]
                        && !after.remove_download
                    &&& hex_text(sha256_digest(data)) != expected ==> after.next == NextView::Over(
                        Err("Checksum mismatch — aborting."@),
                    ) && after.lines == seq!["[red]Checksum mismatch — aborting.[/red]"@]
                        && after.remove_download
                },
            }
        }),
{
    style_surrounds_the_text("  Checksum verified"@);
    style_surrounds_the_text("Checksum mismatch — aborting."@);
    reveal_strlit("[dim]");
    reveal_strlit("[/dim]");
    reveal_strlit("[red]");
    reveal_strlit("[/red]");
    reveal_strlit("  Checksum verified");
    reveal_strlit("Checksum mismatch — aborting.");
    reveal_strlit("[dim]  Checksum verified[/dim]");
    reveal_strlit("[red]Checksum mismatch — aborting.[/red]");
    assert("[dim]"@ + "  Checksum verified"@ + "[/dim]"@ =~= "[dim]  Checksum verified[/dim]"@);
    assert("[red]"@ + "Checksum mismatch — aborting."@ + "[/red]"@
        =~= "[red]Checksum mismatch — aborting.[/red]"@);
}

/// Each command of the installation leads to the next where it succeeds. Where
/// it fails, the update fails, says what failed, and removes the download;
/// where it cannot be run, the update breaks off with the reason.
pub proof fn installation_is_step_by_step(
    config: UpdateConfig,
    current: Seq<char>,
    latest: Seq<char>,
    done: Result<bool, Seq<char>>,
)
    ensures
        ({
            let stages = seq![
                StageView::Executable(latest),
                StageView::Directory(latest),
                StageView::Install(latest),
            ];
            let following = seq![
                StageView::Directory(latest),
                StageView::Install(latest),
                StageView::Restart,
            ];
            let not_run = seq!["chmod failed: "@, "mkdir -p failed: "@, "mv failed: "@];
            let failed = seq![
                "chmod +x /tmp/nulnet failed"@,
                "Could not create /opt/nulnet/bin"@,
                "Install failed: mv /tmp/nulnet → /opt/nulnet/bin/nulnet failed"@,
            ];
            forall|i: int|
                0 <= i < 3 ==> {
                    let after = progress(
                        config,
                        current,
                        #[trigger] stages[i],
                        EventView::Done(done),
                    );
                    match done {
                        Err(e) => after.next == NextView::Over(Err(not_run[i] + e))
                            && after.lines.len() == 0 && !after.remove_download,
                        Ok(false) => after.next == NextView::Over(Err(failed[i])) && after.lines
                            == seq!["[red]"@ + failed[i] + "[/red]"@] && after.remove_download,
                        Ok(true) => {
                            &&& after.next == NextView::Await(following[i])
                            &&& !after.remove_download
                            &&& i < 2 ==> after.lines.len() == 0
                            &&& i == 2 ==> after.lines == seq![
                                "  [dim]Installed[/dim] "@ + latest,
                                ""@,
                            ]
                        },
                    }
                }
        }),
{
    style_surrounds_the_text("chmod +x /tmp/nulnet failed"@);
    style_surrounds_the_text("Could not create /opt/nulnet/bin"@);
    style_surrounds_the_text("Install failed: mv /tmp/nulnet → /opt/nulnet/bin/nulnet failed"@);
    style_surrounds_the_text("Installed"@);
    reveal_strlit("[dim]");
    reveal_strlit("[/dim]");
    reveal_strlit("  ");
    reveal_strlit(" ");
    reveal_strlit("Installed");
    reveal_strlit("  [dim]Installed[/dim] ");
    reveal_strlit("chmod +x ");
    reveal_strlit(" failed");
    reveal_strlit("/tmp/nulnet");
    reveal_strlit("/opt/nulnet/bin/nulnet");
    reveal_strlit("chmod +x /tmp/nulnet failed");
    reveal_strlit("Install failed: mv ");
    reveal_strlit(" → ");
    reveal_strlit("Install failed: mv /tmp/nulnet → /opt/nulnet/bin/nulnet failed");
    assert("chmod +x "@ + "/tmp/nulnet"@ + " failed"@ =~= "chmod +x /tmp/nulnet failed"@);
    assert("Install failed: mv "@ + "/tmp/nulnet"@ + " → "@ + "/opt/nulnet/bin/nulnet"@
        + " failed"@ =~= "Install failed: mv /tmp/nulnet → /opt/nulnet/bin/nulnet failed"@);
    assert("  "@ + ("[dim]"@ + "Installed"@ + "[/dim]"@) + " "@ =~= "  [dim]Installed[/dim] "@);
}

/// Once the binary is in place, the update has ended well, whether or not a
/// restart could be scheduled; the client is told which.
pub proof fn restart_is_announced(
    config: UpdateConfig,
    current: Seq<char>,
    done: Result<bool, Seq<char>>,
)
    ensures
        ({
            let after = progress(config, current, StageView::Restart, EventView::Done(done));
            &&& !after.remove_download
            &&& match done {
                Ok(_) => after.next == NextView::Over(
                    Ok(UpdateOutcome::Installed { restart_scheduled: true }),
                ) && after.lines == seq![
                    "[dim]  Restarting in 3 s — connection will close.[/dim]"@,
                ],
                Err(e) => after.next == NextView::Over(
                    Ok(UpdateOutcome::Installed { restart_scheduled: false }),
                ) && after.lines == seq![
                    "[red]"@ + ("Could not schedule restart: "@ + e
                        + "  Run: sudo systemctl restart nulnet"@) + "[/red]"@,
                ],
            }
        }),
{
    style_surrounds_the_text("  Restarting in 3 s — connection will close."@);
    reveal_strlit("[dim]");
    reveal_strlit("[/dim]");
    reveal_strlit("  Restarting in 3 s — connection will close.");
    reveal_strlit("[dim]  Restarting in 3 s — connection will close.[/dim]");
    assert("[dim]"@ + "  Restarting in 3 s — connection will close."@ + "[/dim]"@
        =~= "[dim]  Restarting in 3 s — connection will close.[/dim]"@);
    if let Err(e) = done {
        style_surrounds_the_text(
            "Could not schedule restart: "@ + e + "  Run: sudo systemctl restart nulnet"@,
        );
    }
}

/// What is said of addresses, outcomes, stages and progress is what they hold.
pub proof fn views_are_what_an_update_holds(
    urls: UpdateUrls,
    outcome: CommandOutcome,
    stage: Stage,
    progress: Progress,
)
    ensures
        urls@.version_check_url == urls.version_check_url@,
        urls@.binary_url == urls.binary_url@,
        urls@.checksum_url == urls.checksum_url@,
        urls@.source_label == urls.source_label@,
        match outcome {
            CommandOutcome::NotRun(e) => outcome@ == OutcomeView::NotRun(e@),
            CommandOutcome::Exited { success, status, stdout, stderr } => outcome@
                == (OutcomeView::Exited {
                success,
                status: status@,
                stdout: stdout@,
                stderr: stderr@,
            }),
        },
        match stage {
            Stage::Version => stage@ == StageView::Version,
            Stage::Download { latest } => stage@ == StageView::Download(latest@),
            Stage::Checksum { latest } => stage@ == StageView::Checksum(latest@),
            Stage::Digest { latest, expected } => stage@ == (StageView::Digest {
                latest: latest@,
                expected: expected@,
            }),
            Stage::Executable { latest } => stage@ == StageView::Executable(latest@),
            Stage::Directory { latest } => stage@ == StageView::Directory(latest@),
            Stage::Install { latest } => stage@ == StageView::Install(latest@),
            Stage::Restart => stage@ == StageView::Restart,
        },
        progress@.remove_download == progress.remove_download,
        progress@.lines == views(progress.lines@),
        match progress.next {
            Next::Await(stage) => progress@.next == NextView::Await(stage@),
            Next::Over(Ok(outcome)) => progress@.next == NextView::Over(Ok(outcome)),
            Next::Over(Err(e)) => progress@.next == NextView::Over(Err(e@)),
        },
{
}

/// What is said of results and of events is what they hold, and each stage
/// awaits one kind of event.
pub proof fn views_are_what_came_of_it(
    text: Result<String, String>,
    document: Result<Document, String>,
    program: String,
    args: Vec<String>,
    event: Event,
    stage: StageView,
)
    ensures
        match text {
            Ok(s) => text_view(text) == Ok::<Seq<char>, Seq<char>>(s@),
            Err(e) => text_view(text) == Err::<Seq<char>, Seq<char>>(e@),
        },
        match document {
            Ok(d) => document_view(document) == Ok::<_, Seq<char>>(d@),
            Err(e) => document_view(document) is Err && document_view(document)->Err_0 == e@,
        },
        command_view(Some((program, args))) == Some((program@, views(args@))),
        command_view(None) is None,
        match event {
            Event::Ran(outcome) => event@ == EventView::Ran(outcome@),
            Event::Content(Ok(bytes)) => event@ == EventView::Content(Ok(bytes@)),
            Event::Content(Err(e)) => event@ == EventView::Content(Err(e@)),
            Event::Done(Ok(well)) => event@ == EventView::Done(Ok(well)),
            Event::Done(Err(e)) => event@ == EventView::Done(Err(e@)),
        },
        stage is Version || stage is Download || stage is Checksum ==> (awaited(stage, event@)
            <==> event is Ran),
        stage is Digest ==> (awaited(stage, event@) <==> event is Content),
        stage is Executable || stage is Directory || stage is Install || stage is Restart ==> (
        awaited(stage, event@) <==> event is Done),
{
}

} // verus!
