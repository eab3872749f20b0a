//! Configuration types.
//!
//! The configuration is persisted as TOML at a platform-specific path; the
//! file handling lives outside this library, which holds the values and the
//! rules over them.

use vstd::prelude::*;
use vstd::string::StringExecFns;

verus! {

/// Top-level configuration persisted across sessions.
#[derive(Debug)]
pub struct Configuration {
    /// Whether to use local Ollama or a cloud API.
    pub mode: OperatingMode,
    /// Local mode settings (required when the mode is `Local`).
    pub local: Option<LocalConfig>,
    /// Cloud mode settings (required when the mode is `Cloud`).
    pub cloud: Option<CloudConfig>,
}

/// Whether grammar checking runs against a local model or a cloud API.
#[derive(Debug, Clone, Copy, PartialEq, Eq, Structural)]
pub enum OperatingMode {
    Local,
    Cloud,
}

impl OperatingMode {
    /// The lowercase name of the mode, as shown to users and stored in the file.
    pub fn as_str(self) -> (r: &'static str)
        ensures
            self == OperatingMode::Local ==> r@ == "local"@,
            self == OperatingMode::Cloud ==> r@ == "cloud"@,
    {
        match self {
            OperatingMode::Local => "local",
            OperatingMode::Cloud => "cloud",
        }
    }
}

/// Configuration for local Ollama mode.
#[derive(Debug)]
pub struct LocalConfig {
    pub ollama_host: String,
    pub model_name: String,
}

/// The Ollama host used when none is configured.
pub open spec fn spec_default_ollama_host() -> Seq<char> {
    "http://localhost:11434"@
}

/// The local model used when none is configured.
pub open spec fn spec_default_local_model() -> Seq<char> {
    "llama3"@
}

impl Default for LocalConfig {
    fn default() -> (r: Self)
        ensures
            r.ollama_host@ == spec_default_ollama_host(),
            r.model_name@ == spec_default_local_model(),
    {
        LocalConfig { ollama_host: default_ollama_host(), model_name: default_local_model() }
    }
}

/// Configuration for cloud API mode.
#[derive(Debug)]
pub struct CloudConfig {
    pub provider: CloudProvider,
    /// Provider-specific model name; the provider's default when `None`.
    pub model_name: Option<String>,
    /// An OpenAI-compatible API base URL to use in place of the provider's own.
    pub base_url: Option<String>,
}

/// Supported cloud providers.
#[derive(Debug, Clone, Copy, PartialEq, Eq, Structural)]
pub enum CloudProvider {
    Gemini,
    OpenAI,
}

impl CloudProvider {
    /// The lowercase provider name.
    pub fn as_str(self) -> (r: &'static str)
        ensures
            self == CloudProvider::Gemini ==> r@ == "gemini"@,
            self == CloudProvider::OpenAI ==> r@ == "openai"@,
    {
        match self {
            CloudProvider::Gemini => "gemini",
            CloudProvider::OpenAI => "openai",
        }
    }

    /// The model used when the configuration names none.
    pub fn default_model(self) -> (r: &'static str)
        ensures
            r@ == spec_default_model(self),
    {
        match self {
            CloudProvider::Gemini => "gemini-2.0-flash",
            CloudProvider::OpenAI => "gpt-4o-mini",
        }
    }

    /// Keyring service name under which the provider's API key is stored.
    pub fn keyring_service(self) -> (r: &'static str)
        ensures
            self == CloudProvider::Gemini ==> r@ == "grammar-check-gemini"@,
            self == CloudProvider::OpenAI ==> r@ == "grammar-check-openai"@,
    {
        match self {
            CloudProvider::Gemini => "grammar-check-gemini",
            CloudProvider::OpenAI => "grammar-check-openai",
        }
    }
}

/// The default model of each provider.
pub open spec fn spec_default_model(p: CloudProvider) -> Seq<char> {
    match p {
        CloudProvider::Gemini => "gemini-2.0-flash"@,
        CloudProvider::OpenAI => "gpt-4o-mini"@,
    }
}

/// The Ollama host used when none is configured.
pub fn default_ollama_host() -> (r: String)
    ensures
        r@ == spec_default_ollama_host(),
{
    String::from_str("http://localhost:11434")
}

/// The local model used when none is configured.
pub fn default_local_model() -> (r: String)
    ensures
        r@ == spec_default_local_model(),
{
    String::from_str("llama3")
}

/// Why a configuration is not usable.
#[derive(Debug, Clone, Copy, PartialEq, Eq, Structural)]
pub enum ConfigError {
    /// Local mode is selected but there is no `[local]` section.
    MissingLocalConfig,
    /// Cloud mode is selected but there is no `[cloud]` section.
    MissingCloudConfig,
}

/// What validating `c` gives: the section its mode needs must be present.
pub open spec fn config_check(c: Configuration) -> Result<(), ConfigError> {
    match c.mode {
        OperatingMode::Local => if c.local is Some {
            Ok(())
        } else {
            Err(ConfigError::MissingLocalConfig)
        },
        OperatingMode::Cloud => if c.cloud is Some {
            Ok(())
        } else {
            Err(ConfigError::MissingCloudConfig)
        },
    }
}

impl Configuration {
    /// Checks that the section the current mode needs is present.
    pub fn validate(&self) -> (r: Result<(), ConfigError>)
        ensures
            r == config_check(*self),
    {
        match self.mode {
            OperatingMode::Local => {
                if self.local.is_none() {
                    return Err(ConfigError::MissingLocalConfig);
                }
            },
            OperatingMode::Cloud => {
                if self.cloud.is_none() {
                    return Err(ConfigError::MissingCloudConfig);
                }
            },
        }
        Ok(())
    }
}

} // verus!
