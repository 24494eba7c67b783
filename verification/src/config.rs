//! The configuration and its defaults.
use vstd::prelude::*;
use crate::table::{Table, TextMap};
use crate::text::owned;

verus! {

#[derive(Debug)]
pub struct Config {
    pub listen_addr: String,
    /// URL prefix for links, for requests that do not say how they reached the server.
    pub public_base_url: Option<String>,
    pub ui_dir: String,
    pub xtream: XtreamConfig,
    pub probe: ProbeConfig,
    pub catalog: CatalogConfig,
    pub epg: EpgConfig,
    pub blacklist: BlacklistConfig,
    pub proxy: ProxyConfig,
    pub curation: CurationConfig,
    pub radio: RadioConfig,
    pub radio_curation: CurationConfig,
    /// Capabilities are asked for per variant of a channel.
    pub caps_v2_per_variant: bool,
    /// Samples older than this do not count for the capabilities of a variant.
    pub caps_v2_stale_secs: u64,
}

#[derive(Debug)]
pub struct RadioConfig {
    pub enabled: bool,
    pub m3u_path: String,
}

/// Order, names and preferences for the channels.
#[derive(Debug)]
pub struct CurationConfig {
    pub order: Vec<String>,
    pub aliases: TextMap<String>,
    pub display_overrides: TextMap<String>,
    pub logo_overrides: TextMap<String>,
    pub provider_boosts: Vec<ProviderBoost>,
}

impl Default for CurationConfig {
    /// Nothing is laid down.
    fn default() -> (r: Self)
        ensures
            r.order@.len() == 0,
            r.aliases@ == Map::<Seq<char>, String>::empty(),
            r.display_overrides@ == Map::<Seq<char>, String>::empty(),
            r.logo_overrides@ == Map::<Seq<char>, String>::empty(),
            r.provider_boosts@.len() == 0,
    {
        CurationConfig {
            order: Vec::new(),
            aliases: Table::new(),
            display_overrides: Table::new(),
            logo_overrides: Table::new(),
            provider_boosts: Vec::new(),
        }
    }
}

/// A score for the streams whose name matches a pattern.
#[derive(Debug)]
pub struct ProviderBoost {
    pub pattern: String,
    pub score: i32,
}

#[derive(Debug)]
pub struct XtreamConfig {
    pub username: String,
    pub password: String,
    pub hosts: Vec<String>,
}

#[derive(Debug, Clone, Copy)]
pub struct ProbeConfig {
    pub interval_secs: u64,
    pub timeout_ms: u64,
    pub parallelism: usize,
    /// How often stale measurements are refreshed: never for 0; by the number of
    /// connections where it is not set.
    pub freshness_loop_interval_secs: Option<u64>,
    /// The age from which a measurement is stale.
    pub freshness_ttl_secs: u64,
}

#[derive(Debug, Clone, Copy)]
pub struct CatalogConfig {
    pub refresh_interval_secs: u64,
}

#[derive(Debug, Clone, Copy)]
pub struct EpgConfig {
    pub ttl_secs: u64,
    pub fetch_timeout_secs: u64,
}

#[derive(Debug, Clone, Copy)]
pub struct BlacklistConfig {
    pub host_fail_threshold: usize,
    pub host_ttl_secs: u64,
    /// How long each step of the cool-off lasts.
    pub cool_off_steps_secs: [u64; 4],
    /// The age up to which the heartbeat before this one counts.
    pub heartbeat_window_secs: u64,
    /// The time without error after which a heartbeat ends the cool-off.
    pub clean_play_reset_secs: u64,
}

#[derive(Debug, Clone, Copy)]
pub struct ProxyConfig {
    pub upstream_timeout_secs: u64,
    pub segment_buffer_bytes: usize,
    pub play_budget_secs: u64,
    pub per_attempt_timeout_secs: u64,
    pub opportunistic_validate_count: usize,
    pub opportunistic_validate_timeout_secs: u64,
}

pub fn default_radio_m3u_path() -> (r: String)
    ensures
        r@ == "radios.m3u"@,
{
    owned("radios.m3u")
}

pub fn default_ui_dir() -> (r: String)
    ensures
        r@ == "../app"@,
{
    owned("../app")
}

pub fn default_parallelism() -> (r: usize)
    ensures
        r == 4,
{
    4
}

pub fn default_freshness_ttl() -> (r: u64)
    ensures
        r == 3600,
{
    3600
}

pub fn default_cool_off_steps() -> (r: [u64; 4])
    ensures
        r@ == seq![60u64, 300u64, 1800u64, 21600u64],
{
    let r: [u64; 4] = [60, 300, 1800, 21600];
    proof {
        assert(r@ =~= seq![60u64, 300u64, 1800u64, 21600u64]);
    }
    r
}

pub fn default_heartbeat_window() -> (r: u64)
    ensures
        r == 60,
{
    60
}

pub fn default_clean_play_reset() -> (r: u64)
    ensures
        r == 300,
{
    300
}

pub fn default_segment_buffer() -> (r: usize)
    ensures
        r == 65536,
{
    65536
}

pub fn default_play_budget() -> (r: u64)
    ensures
        r == 60,
{
    60
}

pub fn default_per_attempt() -> (r: u64)
    ensures
        r == 5,
{
    5
}

pub fn default_validate_count() -> (r: usize)
    ensures
        r == 2,
{
    2
}

pub fn default_validate_timeout() -> (r: u64)
    ensures
        r == 6,
{
    6
}

/// What a configuration lacks.
#[derive(Debug, Clone, Copy, PartialEq, Eq, Structural)]
pub enum ConfigError {
    NoHosts,
    NoUsername,
    NoPassword,
}

impl ConfigError {
    pub fn message(&self) -> (r: String)
        ensures
            r@ == match self {
                ConfigError::NoHosts => "xtream.hosts cannot be empty"@,
                ConfigError::NoUsername => "xtream.username cannot be empty"@,
                ConfigError::NoPassword => "xtream.password cannot be empty"@,
            },
    {
        match self {
            ConfigError::NoHosts => owned("xtream.hosts cannot be empty"),
            ConfigError::NoUsername => owned("xtream.username cannot be empty"),
            ConfigError::NoPassword => owned("xtream.password cannot be empty"),
        }
    }
}

impl Config {
    /// Hosts and credentials must be there; of several faults the first is told.
    pub fn validate(&self) -> (r: Result<(), ConfigError>)
        ensures
            r == if self.xtream.hosts@.len() == 0 {
                Err::<(), ConfigError>(ConfigError::NoHosts)
            } else if self.xtream.username@.len() == 0 {
                Err::<(), ConfigError>(ConfigError::NoUsername)
            } else if self.xtream.password@.len() == 0 {
                Err::<(), ConfigError>(ConfigError::NoPassword)
            } else {
                Ok::<(), ConfigError>(())
            },
    {
        if self.xtream.hosts.len() == 0 {
            return Err(ConfigError::NoHosts);
        }
        if self.xtream.username.as_str().is_empty() {
            return Err(ConfigError::NoUsername);
        }
        if self.xtream.password.as_str().is_empty() {
            return Err(ConfigError::NoPassword);
        }
        Ok(())
    }
}

} // verus!
