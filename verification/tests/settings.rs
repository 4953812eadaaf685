use nulnet::config::{
    config_path, load_config, AgentConfig, Config, ConfigDecision, ConfigFile, TelemetryConfig,
    UpdateConfig,
};
use nulnet::release::{binary_artifact_name, checksum_artifact_name};

fn cdn(base: &str) -> UpdateConfig {
    UpdateConfig { cdn: Some(base.to_string()) }
}

#[test]
fn a_cdn_is_used_when_it_is_named() {
    assert!(!UpdateConfig::default().uses_cdn());
    assert!(!cdn("").uses_cdn());
    assert!(!cdn(" \t").uses_cdn());
    assert!(cdn("https://cdn.example.com/nulnet").uses_cdn());
}

#[test]
fn cdn_addresses() {
    for base in [
        "https://cdn.example.com/nulnet",
        "https://cdn.example.com/nulnet/",
        "  https://cdn.example.com/nulnet//\n",
    ] {
        let config = cdn(base);
        assert_eq!(config.cdn_binary_url(), "https://cdn.example.com/nulnet/nulnet");
        assert_eq!(config.cdn_checksum_url(), "https://cdn.example.com/nulnet/nulnet.sha256");
        assert_eq!(config.cdn_version_url(), "https://cdn.example.com/nulnet/version.txt");
    }
    assert_eq!(UpdateConfig::default().cdn_binary_url(), "/nulnet");
    assert_eq!(cdn("a").clone().cdn_version_url(), "a/version.txt");
}

#[test]
fn github_addresses() {
    assert_eq!(
        UpdateConfig::github_latest_api_url(),
        "https://api.github.com/repos/nulnet/nulnet/releases/latest"
    );
    assert_eq!(
        UpdateConfig::github_download_base(),
        "https://github.com/nulnet/nulnet/releases/latest/download"
    );
}

#[test]
fn default_settings() {
    let config = Config::defaults(false);
    assert_eq!(config.agent.data_dir, "/opt/nulnet/data");
    assert_eq!(config.agent.retention_days, 5);
    assert_eq!(config.agent.socket_path, "/opt/nulnet/nulnet.sock");
    assert!(config.agent.allowed_keys.is_empty());
    assert_eq!(config.telemetry.interval_seconds, 30);
    assert!(config.update.cdn.is_none());
    let agent = AgentConfig::defaults(true);
    assert_eq!(agent.data_dir, "./data");
    assert_eq!(agent.socket_path, "./nulnet.sock");
}

#[test]
fn an_interval_of_nothing_is_the_default() {
    assert_eq!(TelemetryConfig { interval_seconds: 0 }.collection_interval(), 30);
    assert_eq!(TelemetryConfig { interval_seconds: 7 }.collection_interval(), 7);
}

#[test]
fn a_broken_configuration_ends_a_release_only() {
    let broken = || ConfigFile::Malformed("expected `=`".to_string());
    match load_config(false, broken()) {
        ConfigDecision::Abort(message) => assert_eq!(
            message,
            "FATAL: Failed to parse /opt/nulnet/config.toml: expected `=`"
        ),
        ConfigDecision::Run(_) => panic!("runs with a broken configuration"),
    }
    for file in [broken(), ConfigFile::Missing, ConfigFile::Unreadable] {
        match load_config(true, file) {
            ConfigDecision::Run(config) => assert_eq!(config.agent.data_dir, "./data"),
            ConfigDecision::Abort(_) => panic!("does not run"),
        }
    }
    for file in [ConfigFile::Missing, ConfigFile::Unreadable] {
        match load_config(false, file) {
            ConfigDecision::Run(config) => assert_eq!(config.agent.data_dir, "/opt/nulnet/data"),
            ConfigDecision::Abort(_) => panic!("does not run"),
        }
    }
    assert_eq!(config_path(true), "./config.development.toml");
    assert_eq!(config_path(false), "/opt/nulnet/config.toml");
}

#[test]
fn a_good_configuration_is_used() {
    let mut written = Config::defaults(true);
    written.agent.retention_days = 9;
    match load_config(false, ConfigFile::Parsed(written)) {
        ConfigDecision::Run(config) => {
            assert_eq!(config.agent.retention_days, 9);
            assert_eq!(config.agent.data_dir, "./data");
        }
        ConfigDecision::Abort(_) => panic!("does not run"),
    }
}

#[test]
fn binary_artifact_name_matches_host() {
    assert_eq!(binary_artifact_name("x86_64").unwrap(), "nulnet");
    assert_eq!(binary_artifact_name("aarch64").unwrap(), "nulnet-aarch64");
}

#[test]
fn other_hosts_have_no_artifact() {
    let message = "unsupported CPU architecture for prebuilt binaries: riscv64";
    assert_eq!(binary_artifact_name("riscv64").unwrap_err(), message);
    assert_eq!(checksum_artifact_name("riscv64").unwrap_err(), message);
    assert_eq!(checksum_artifact_name("aarch64").unwrap(), "nulnet-aarch64.sha256");
}
