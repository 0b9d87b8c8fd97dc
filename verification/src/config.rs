//! Configuration of the eyes organ and its defaults. Loading it from disk
//! happens outside the library.

use vstd::prelude::*;

verus! {

/// Local vision-model settings. The sampling temperature is an `f32`; it is
/// carried here as its IEEE-754 bits (`f32::to_bits`), which the library
/// never interprets.
pub struct VlmConfig {
    pub enabled: bool,
    pub model_id: String,
    pub model_dir: Option<String>,
    pub max_new_tokens: usize,
    pub temperature_bits: u32,
    pub cpu: bool,
}

/// The bits of the `f32` 0.2, the default sampling temperature.
pub const DEFAULT_VLM_TEMPERATURE_BITS: u32 = 0x3E4C_CCCD;

/// The model captioning uses unless configured otherwise.
pub fn default_vlm_model() -> (r: String)
    ensures
        r@ == "llava-hf/llava-1.5-7b-hf"@,
{
    "llava-hf/llava-1.5-7b-hf".to_owned()
}

/// The most tokens a caption may have unless configured otherwise.
pub fn default_vlm_max_tokens() -> (r: usize)
    ensures
        r == 256,
{
    256
}

impl Default for VlmConfig {
    /// Disabled, the default model, no local model directory, 256 tokens,
    /// temperature 0.2, GPU allowed.
    fn default() -> (r: Self)
        ensures
            !r.enabled,
            r.model_id@ == "llava-hf/llava-1.5-7b-hf"@,
            r.model_dir is None,
            r.max_new_tokens == 256,
            r.temperature_bits == DEFAULT_VLM_TEMPERATURE_BITS,
            !r.cpu,
    {
        VlmConfig {
            enabled: false,
            model_id: default_vlm_model(),
            model_dir: None,
            max_new_tokens: default_vlm_max_tokens(),
            temperature_bits: DEFAULT_VLM_TEMPERATURE_BITS,
            cpu: false,
        }
    }
}

/// Settings for fetching pages.
pub struct CaptureConfig {
    pub user_agent: String,
}

/// Settings for logging.
pub struct LoggingConfig {
    pub level: String,
}

/// Settings of the HTTP daemon.
pub struct ServerConfig {
    pub port: u16,
}

impl Default for ServerConfig {
    /// Port 3105.
    fn default() -> (r: Self)
        ensures
            r.port == 3105,
    {
        ServerConfig { port: 3105 }
    }
}

/// Where the agent-spine bus is.
pub struct SpineConfig {
    pub url: String,
}

impl Default for SpineConfig {
    /// `http://localhost:3100`.
    fn default() -> (r: Self)
        ensures
            r.url@ == "http://localhost:3100"@,
    {
        SpineConfig { url: "http://localhost:3100".to_owned() }
    }
}

/// The whole configuration.
pub struct Config {
    pub capture: CaptureConfig,
    pub logging: LoggingConfig,
    pub server: ServerConfig,
    pub spine: SpineConfig,
    pub vlm: VlmConfig,
}

impl Default for Config {
    /// User agent `agent-eyes/0.2.0`, log level `info`, and the defaults of
    /// each section.
    fn default() -> (r: Self)
        ensures
            r.capture.user_agent@ == "agent-eyes/0.2.0"@,
            r.logging.level@ == "info"@,
            r.server.port == 3105,
            r.spine.url@ == "http://localhost:3100"@,
            !r.vlm.enabled,
            r.vlm.model_id@ == "llava-hf/llava-1.5-7b-hf"@,
            r.vlm.model_dir is None,
            r.vlm.max_new_tokens == 256,
            r.vlm.temperature_bits == DEFAULT_VLM_TEMPERATURE_BITS,
            !r.vlm.cpu,
    {
        Config {
            capture: CaptureConfig { user_agent: "agent-eyes/0.2.0".to_owned() },
            logging: LoggingConfig { level: "info".to_owned() },
            server: ServerConfig::default(),
            spine: SpineConfig::default(),
            vlm: VlmConfig::default(),
        }
    }
}

} // verus!
