//! The agent's configuration: its defaults, where it is read from, and where
//! updates come from.

use crate::text::{
    is_white_space, lemma_trim_both, trim, trim_end, trim_end_of, trim_start, trimmed,
    trimming_end_leaves_the_rest, trimming_leaves_the_middle, trimming_takes_the_class_off,
    CharClass,
};
use vstd::prelude::*;

verus! {

#[derive(Debug)]
pub struct Config {
    pub agent: AgentConfig,
    pub telemetry: TelemetryConfig,
    pub update: UpdateConfig,
}

/// Update source: set `cdn` to use a custom CDN; omit it to use GitHub Releases.
#[derive(Debug)]
pub struct UpdateConfig {
    pub cdn: Option<String>,
}

impl Clone for UpdateConfig {
    fn clone(&self) -> (res: UpdateConfig)
        ensures
            res == *self,
    {
        UpdateConfig {
            cdn: match &self.cdn {
                Some(s) => Some(s.clone()),
                None => None,
            },
        }
    }
}

#[derive(Debug)]
pub struct AgentConfig {
    pub data_dir: String,
    pub retention_days: u64,
    pub socket_path: String,
    pub allowed_keys: Vec<String>,
}

#[derive(Debug)]
pub struct TelemetryConfig {
    pub interval_seconds: u64,
}

/// The address of a file on a CDN: the base without white space around it and
/// without slashes at its end, a slash, and the file's name.
pub open spec fn cdn_file_url(base: Seq<char>, file: Seq<char>) -> Seq<char> {
    trim_end(trimmed(base), CharClass::Just('/')) + file
}

impl UpdateConfig {
    /// The CDN's base as it is written in the configuration; empty without one.
    pub open spec fn written_base(self) -> Seq<char> {
        match self.cdn {
            Some(s) => s@,
            None => seq![],
        }
    }

    /// A CDN is named, and its name is not blank.
    pub open spec fn has_cdn(self) -> bool {
        trimmed(self.written_base()).len() > 0
    }

    /// Whether updates come from a CDN.
    pub fn uses_cdn(&self) -> (res: bool)
        ensures
            res == self.has_cdn(),
    {
        self.cdn_base().as_str().unicode_len() > 0
    }

    /// The CDN's base without white space around it; empty without one.
    fn cdn_base(&self) -> (res: String)
        ensures
            res@ == trimmed(self.written_base()),
    {
        match &self.cdn {
            Some(s) => trim(s.as_str()),
            None => String::new(),
        }
    }

    /// Where the latest release on GitHub is described.
    pub fn github_latest_api_url() -> (res: String)
        ensures
            res@ == "https://api.github.com/repos/nulnet/nulnet/releases/latest"@,
    {
        "https://api.github.com/repos/nulnet/nulnet/releases/latest".to_string()
    }

    /// Where the files of the latest release on GitHub are.
    pub fn github_download_base() -> (res: String)
        ensures
            res@ == "https://github.com/nulnet/nulnet/releases/latest/download"@,
    {
        "https://github.com/nulnet/nulnet/releases/latest/download".to_string()
    }

    /// The address of a file on the CDN.
    fn cdn_url(&self, file: &str) -> (res: String)
        ensures
            res@ == cdn_file_url(self.written_base(), file@),
    {
        let base = self.cdn_base();
        let mut url = trim_end_of(base.as_str(), CharClass::Just('/'));
        url.append(file);
        url
    }

    /// Where the CDN keeps the binary.
    pub fn cdn_binary_url(&self) -> (res: String)
        ensures
            res@ == cdn_file_url(self.written_base(), "/nulnet"@),
    {
        self.cdn_url("/nulnet")
    }

    /// Where the CDN says which version it offers.
    pub fn cdn_version_url(&self) -> (res: String)
        ensures
            res@ == cdn_file_url(self.written_base(), "/version.txt"@),
    {
        self.cdn_url("/version.txt")
    }

    /// Where the CDN keeps the digest of the binary.
    pub fn cdn_checksum_url(&self) -> (res: String)
        ensures
            res@ == cdn_file_url(self.written_base(), "/nulnet.sha256"@),
    {
        self.cdn_url("/nulnet.sha256")
    }
}

/// A slash at the end of the base makes no difference.
pub proof fn trailing_slash_makes_no_difference(base: Seq<char>, file: Seq<char>)
    requires
        trimmed(base) == base,
    ensures
        cdn_file_url(base.push('/'), file) == cdn_file_url(base, file),
{
    let longer = base.push('/');
    let white = CharClass::White;
    lemma_trim_both(base, white);
    assert(!white.holds('/'));
    assert(trim_start(longer, white) == longer) by {
        assert(base.len() > 0 ==> longer[0] == base[0]);
    }
    assert(trim_end(longer, white) == longer) by {
        assert(longer.last() == '/');
    }
    let slash = CharClass::Just('/');
    assert(trim_end(longer, slash) == trim_end(base, slash)) by {
        assert(longer.last() == '/');
        assert(longer.drop_last() =~= base);
    }
}

impl AgentConfig {
    /// The settings of an agent that is told nothing else; `debug` is for an
    /// agent run from its working directory.
    pub open spec fn is_default(self, debug: bool) -> bool {
        &&& self.data_dir@ == if debug {
            "./data"@
        } else {
            "/opt/nulnet/data"@
        }
        &&& self.retention_days == 5
        &&& self.socket_path@ == if debug {
            "./nulnet.sock"@
        } else {
            "/opt/nulnet/nulnet.sock"@
        }
        &&& self.allowed_keys@.len() == 0
    }

    /// The default settings.
    pub fn defaults(debug: bool) -> (res: AgentConfig)
        ensures
            res.is_default(debug),
    {
        if debug {
            AgentConfig {
                data_dir: "./data".to_string(),
                retention_days: 5,
                socket_path: "./nulnet.sock".to_string(),
                allowed_keys: Vec::new(),
            }
        } else {
            AgentConfig {
                data_dir: "/opt/nulnet/data".to_string(),
                retention_days: 5,
                socket_path: "/opt/nulnet/nulnet.sock".to_string(),
                allowed_keys: Vec::new(),
            }
        }
    }
}

impl Default for TelemetryConfig {
    fn default() -> (res: Self)
        ensures
            res.interval_seconds == 30,
    {
        TelemetryConfig { interval_seconds: 30 }
    }
}

impl Default for UpdateConfig {
    fn default() -> (res: Self)
        ensures
            res.cdn is None,
            !res.has_cdn(),
    {
        UpdateConfig { cdn: None }
    }
}

impl TelemetryConfig {
    /// How many seconds lie between two collections: what is configured, or
    /// 30 where that is nothing.
    pub fn collection_interval(&self) -> (res: u64)
        ensures
            res == if self.interval_seconds > 0 {
                self.interval_seconds
            } else {
                30
            },
            res > 0,
    {
        if self.interval_seconds > 0 {
            self.interval_seconds
        } else {
            30
        }
    }
}

impl Config {
    /// Every part has its default settings.
    pub open spec fn is_default(self, debug: bool) -> bool {
        &&& self.agent.is_default(debug)
        &&& self.telemetry.interval_seconds == 30
        &&& self.update.cdn is None
    }

    /// The default settings.
    pub fn defaults(debug: bool) -> (res: Config)
        ensures
            res.is_default(debug),
    {
        Config {
            agent: AgentConfig::defaults(debug),
            telemetry: TelemetryConfig::default(),
            update: UpdateConfig::default(),
        }
    }
}

/// Where the configuration file is.
pub open spec fn config_path_spec(debug: bool) -> Seq<char> {
    if debug {
        "./config.development.toml"@
    } else {
        "/opt/nulnet/config.toml"@
    }
}

/// Where the configuration file is.
pub fn config_path(debug: bool) -> (res: &'static str)
    ensures
        res@ == config_path_spec(debug),
{
    if debug {
        "./config.development.toml"
    } else {
        "/opt/nulnet/config.toml"
    }
}

/// What came of looking for the configuration file.
pub enum ConfigFile {
    /// There is none.
    Missing,
    /// It is there, but could not be read.
    Unreadable,
    /// It was read, but makes no sense, for the reason given.
    Malformed(String),
    /// It says this.
    Parsed(Config),
}

/// How the agent goes on after it has looked for its configuration.
pub enum ConfigDecision {
    /// It runs with these settings.
    Run(Config),
    /// It says this and exits.
    Abort(String),
}

/// Decides what to run with. A broken configuration is dangerous in
/// production (an empty list of allowed keys locks out all clients), so there
/// it ends the agent rather than giving way to the defaults.
pub fn load_config(debug: bool, file: ConfigFile) -> (res: ConfigDecision)
    ensures
        match file {
            ConfigFile::Parsed(config) => res == ConfigDecision::Run(config),
            ConfigFile::Malformed(reason) if !debug => res matches ConfigDecision::Abort(message)
                && message@ == "FATAL: Failed to parse "@ + config_path_spec(debug) + ": "@
                + reason@,
            _ => res matches ConfigDecision::Run(config) && config.is_default(debug),
        },
{
    match file {
        ConfigFile::Parsed(config) => ConfigDecision::Run(config),
        ConfigFile::Malformed(reason) => {
            if debug {
                ConfigDecision::Run(Config::defaults(debug))
            } else {
                let mut message = "FATAL: Failed to parse ".to_string();
                message.append(config_path(debug));
                message.append(": ");
                message.append(reason.as_str());
                ConfigDecision::Abort(message)
            }
        },
        ConfigFile::Missing => ConfigDecision::Run(Config::defaults(debug)),
        ConfigFile::Unreadable => ConfigDecision::Run(Config::defaults(debug)),
    }
}

// ─── What holds of settings ──────────────────────────────────────────────────

/// A CDN is used when its name holds a character that is no white space, and
/// only then.
pub proof fn cdn_is_used_when_named(config: UpdateConfig)
    ensures
        config.has_cdn() <==> (config.cdn matches Some(s) && exists|i: int|
            0 <= i < s@.len() && !is_white_space(#[trigger] s@[i])),
{
    if let Some(s) = config.cdn {
        trimming_takes_the_class_off(s@, CharClass::White);
    } else {
        assert(trimmed(seq![]).len() == 0) by {
            lemma_trim_both(seq![], CharClass::White);
        }
    }
}

/// White space around the base of a CDN and slashes at its end make no
/// difference, and nothing else is lost of it.
pub proof fn cdn_address_is_the_base_and_the_file(
    left: Seq<char>,
    base: Seq<char>,
    slashes: Seq<char>,
    right: Seq<char>,
    file: Seq<char>,
)
    requires
        forall|i: int| 0 <= i < left.len() ==> is_white_space(#[trigger] left[i]),
        forall|i: int| 0 <= i < right.len() ==> is_white_space(#[trigger] right[i]),
        forall|i: int| 0 <= i < slashes.len() ==> #[trigger] slashes[i] == '/',
        base.len() > 0,
        !is_white_space(base[0]),
        base.last() != '/',
        slashes.len() == 0 ==> !is_white_space(base.last()),
    ensures
        cdn_file_url(left + (base + slashes) + right, file) == base + file,
        slashes.len() > 0 ==> cdn_file_url(left + slashes + right, file) == file,
{
    let white = CharClass::White;
    let slash = CharClass::Just('/');
    let middle = base + slashes;
    assert(middle[0] == base[0]);
    assert(middle.last() == if slashes.len() > 0 {
        slashes[slashes.len() - 1]
    } else {
        base.last()
    });
    assert(!white.holds('/'));
    trimming_leaves_the_middle(left, middle, right, white);
    trimming_end_leaves_the_rest(base, slashes, slash);
    if slashes.len() > 0 {
        assert(slashes[0] == '/' && slashes[slashes.len() - 1] == '/');
        trimming_leaves_the_middle(left, slashes, right, white);
        trimming_end_leaves_the_rest(seq![], slashes, slash);
        assert(Seq::<char>::empty() + slashes =~= slashes);
        assert(Seq::<char>::empty() + file =~= file);
    }
}

/// What the agent has without a configuration: five days of snapshots, no
/// trusted key, and its files below its own directory, or, for development,
/// below the working directory.
pub proof fn defaults_are_those_of_the_manual(config: Config, debug: bool)
    requires
        config.is_default(debug),
    ensures
        !debug ==> config.agent.data_dir@ == "/opt/nulnet/data"@,
        !debug ==> config.agent.socket_path@ == "/opt/nulnet/nulnet.sock"@,
        debug ==> config.agent.data_dir@ == "./data"@,
        debug ==> config.agent.socket_path@ == "./nulnet.sock"@,
        config.agent.retention_days == 5,
        config.agent.allowed_keys@.len() == 0,
        config.telemetry.interval_seconds == 30,
        !config.update.has_cdn(),
        config_path_spec(false) == "/opt/nulnet/config.toml"@,
        config_path_spec(true) == "./config.development.toml"@,
{
    cdn_is_used_when_named(config.update);
}

} // verus!
