//! The `config` command: changes to the stored configuration.

use vstd::prelude::*;
use vstd::string::StringExecFns;
use crate::models::config::{
    config_check, default_local_model, default_ollama_host, spec_default_local_model,
    spec_default_ollama_host, CloudConfig, CloudProvider, ConfigError, Configuration, LocalConfig,
    OperatingMode,
};
use crate::cli::{apply_cli_overrides, overrides_applied};

verus! {

/// A `config` action.
#[derive(Debug)]
pub enum ConfigAction {
    /// Set the operating mode.
    SetMode { mode: ModeArg },
    /// Set the cloud provider (and switch to cloud mode).
    SetProvider { provider: ProviderArg },
    /// Store an API key; `None` asks for it.
    SetApiKey { key: Option<String> },
    /// Remove the stored API key.
    DeleteApiKey,
    /// Set the model used from now on.
    SetModel { model: String },
    /// Set the OpenAI-compatible base URL used from now on.
    SetBaseUrl { url: String },
    /// Display the current configuration.
    Show,
}

/// Operating mode argument.
#[derive(Debug, Clone, Copy, PartialEq, Eq, Structural)]
pub enum ModeArg {
    Local,
    Cloud,
}

/// Cloud provider argument.
#[derive(Debug, Clone, Copy, PartialEq, Eq, Structural)]
pub enum ProviderArg {
    Gemini,
    OpenAI,
}

/// What carrying out a `config` action takes.
#[derive(Debug)]
pub enum ConfigStep {
    /// Persist this configuration.
    Save(Configuration),
    /// Ask the user for the provider's API key, then set it.
    PromptApiKey(CloudProvider),
    /// Store the key for the provider.
    StoreApiKey(CloudProvider, String),
    /// Delete the provider's stored key.
    DeleteApiKey(CloudProvider),
    /// Show the stored configuration.
    Show,
}

/// Why a `config` action cannot be carried out.
#[derive(Debug, Clone, Copy, PartialEq, Eq, Structural)]
pub enum ConfigCommandError {
    /// The action needs a cloud provider and none is configured.
    NoCloudProvider,
    /// An empty API key was given.
    EmptyApiKey,
}

/// `l` holds the default local settings.
pub open spec fn is_default_local(l: LocalConfig) -> bool {
    &&& l.ollama_host@ == spec_default_ollama_host()
    &&& l.model_name@ == spec_default_local_model()
}

/// `c` holds the default cloud settings: Gemini with its default model.
pub open spec fn is_default_cloud(c: CloudConfig, provider: CloudProvider) -> bool {
    &&& c.provider == provider
    &&& c.model_name is None
    &&& c.base_url is None
}

/// `c` is the configuration used when none is stored: local mode with the
/// default local settings.
pub open spec fn is_default_configuration(c: Configuration) -> bool {
    &&& c.mode == OperatingMode::Local
    &&& c.local matches Some(l) && is_default_local(l)
    &&& c.cloud is None
}

/// `c` is what loading gives: the stored configuration, or the default.
pub open spec fn is_loaded(stored: Option<Configuration>, c: Configuration) -> bool {
    match stored {
        Some(s) => c == s,
        None => is_default_configuration(c),
    }
}

/// `after` is `before` switched to `mode`, with default settings for that mode
/// if it had none.
pub open spec fn mode_set(before: Configuration, mode: ModeArg, after: Configuration) -> bool {
    match mode {
        ModeArg::Local => {
            &&& after.mode == OperatingMode::Local
            &&& after.cloud == before.cloud
            &&& before.local is Some ==> after.local == before.local
            &&& before.local is None ==> (after.local matches Some(l) && is_default_local(l))
        },
        ModeArg::Cloud => {
            &&& after.mode == OperatingMode::Cloud
            &&& after.local == before.local
            &&& before.cloud is Some ==> after.cloud == before.cloud
            &&& before.cloud is None ==> (after.cloud matches Some(c) && is_default_cloud(
                c,
                CloudProvider::Gemini,
            ))
        },
    }
}

/// The provider an argument names.
pub open spec fn provider_of(p: ProviderArg) -> CloudProvider {
    match p {
        ProviderArg::Gemini => CloudProvider::Gemini,
        ProviderArg::OpenAI => CloudProvider::OpenAI,
    }
}

/// `after` is `before` in cloud mode with `provider` and its default model.
pub open spec fn provider_set(before: Configuration, provider: ProviderArg, after: Configuration) -> bool {
    &&& after.mode == OperatingMode::Cloud
    &&& after.local == before.local
    &&& after.cloud matches Some(c) && is_default_cloud(c, provider_of(provider))
}

/// The stored configuration, or the default one when none is stored.
pub fn load_or_default(stored: Option<Configuration>) -> (c: Configuration)
    ensures
        is_loaded(stored, c),
        stored is None ==> config_check(c) == Ok::<(), ConfigError>(()),
{
    match stored {
        Some(c) => c,
        None => Configuration {
            mode: OperatingMode::Local,
            local: Some(LocalConfig::default()),
            cloud: None,
        },
    }
}

/// Switches `config` to `mode`.
pub fn set_mode(config: Configuration, mode: ModeArg) -> (r: Configuration)
    ensures
        mode_set(config, mode, r),
        config_check(r) == Ok::<(), ConfigError>(()),
{
    let mut config = config;
    match mode {
        ModeArg::Local => {
            if config.local.is_none() {
                config.local = Some(LocalConfig::default());
            }
            config.mode = OperatingMode::Local;
        },
        ModeArg::Cloud => {
            if config.cloud.is_none() {
                config.cloud = Some(
                    CloudConfig { provider: CloudProvider::Gemini, model_name: None, base_url: None },
                );
            }
            config.mode = OperatingMode::Cloud;
        },
    }
    config
}

/// Switches `config` to cloud mode with `provider`.
pub fn set_provider(config: Configuration, provider: ProviderArg) -> (r: Configuration)
    ensures
        provider_set(config, provider, r),
        config_check(r) == Ok::<(), ConfigError>(()),
{
    let mut config = config;
    let cloud_provider = match provider {
        ProviderArg::Gemini => CloudProvider::Gemini,
        ProviderArg::OpenAI => CloudProvider::OpenAI,
    };
    config.cloud = Some(CloudConfig { provider: cloud_provider, model_name: None, base_url: None });
    config.mode = OperatingMode::Cloud;
    config
}

/// Decides what a `config` action takes, given the stored configuration
/// (`None` when there is none).
pub fn run(action: &ConfigAction, stored: Option<Configuration>) -> (r: Result<ConfigStep, ConfigCommandError>)
    ensures
        match action {
            ConfigAction::SetMode { mode } => r matches Ok(ConfigStep::Save(c)) && exists|b: Configuration| is_loaded(stored, b) && mode_set(b, *mode, c),
            ConfigAction::SetProvider { provider } => r matches Ok(ConfigStep::Save(c)) && exists|b: Configuration| is_loaded(stored, b) && provider_set(b, *provider, c),
            ConfigAction::SetApiKey { key } => match stored {
                Some(s) if s.cloud is Some => match key {
                    None => r == Ok::<ConfigStep, ConfigCommandError>(ConfigStep::PromptApiKey(s.cloud->0.provider)),
                    Some(k) => if k@.len() == 0 {
                        r == Err::<ConfigStep, ConfigCommandError>(ConfigCommandError::EmptyApiKey)
                    } else {
                        r matches Ok(ConfigStep::StoreApiKey(p, k2)) && p == s.cloud->0.provider && k2@ == k@
                    },
                },
                _ => r == Err::<ConfigStep, ConfigCommandError>(ConfigCommandError::NoCloudProvider),
            },
            ConfigAction::DeleteApiKey => match stored {
                Some(s) if s.cloud is Some => r == Ok::<ConfigStep, ConfigCommandError>(ConfigStep::DeleteApiKey(s.cloud->0.provider)),
                _ => r == Err::<ConfigStep, ConfigCommandError>(ConfigCommandError::NoCloudProvider),
            },
            ConfigAction::SetModel { model } => r matches Ok(ConfigStep::Save(c)) && exists|b: Configuration| is_loaded(stored, b) && overrides_applied(b, Some(model@), None, c),
            ConfigAction::SetBaseUrl { url } => r matches Ok(ConfigStep::Save(c)) && exists|b: Configuration| is_loaded(stored, b) && overrides_applied(b, None, Some(url@), c),
            ConfigAction::Show => r == Ok::<ConfigStep, ConfigCommandError>(ConfigStep::Show),
        },
{
    match action {
        ConfigAction::SetMode { mode } => {
            let config = load_or_default(stored);
            Ok(ConfigStep::Save(set_mode(config, *mode)))
        },
        ConfigAction::SetProvider { provider } => {
            let config = load_or_default(stored);
            Ok(ConfigStep::Save(set_provider(config, *provider)))
        },
        ConfigAction::SetApiKey { key } => {
            let config = load_or_default(stored);
            let provider = match &config.cloud {
                Some(cloud) => cloud.provider,
                None => return Err(ConfigCommandError::NoCloudProvider),
            };
            match key {
                None => Ok(ConfigStep::PromptApiKey(provider)),
                Some(k) => {
                    if k.as_str().is_empty() {
                        Err(ConfigCommandError::EmptyApiKey)
                    } else {
                        Ok(ConfigStep::StoreApiKey(provider, k.clone()))
                    }
                },
            }
        },
        ConfigAction::DeleteApiKey => {
            let config = load_or_default(stored);
            match &config.cloud {
                Some(cloud) => Ok(ConfigStep::DeleteApiKey(cloud.provider)),
                None => Err(ConfigCommandError::NoCloudProvider),
            }
        },
        ConfigAction::SetModel { model } => {
            let mut config = load_or_default(stored);
            apply_cli_overrides(&mut config, Some(model.as_str()), None);
            Ok(ConfigStep::Save(config))
        },
        ConfigAction::SetBaseUrl { url } => {
            let mut config = load_or_default(stored);
            apply_cli_overrides(&mut config, None, Some(url.as_str()));
            Ok(ConfigStep::Save(config))
        },
        ConfigAction::Show => Ok(ConfigStep::Show),
    }
}

/// Switching the mode, or the provider, always gives a configuration that
/// passes validation, whatever it was before.
pub proof fn lemma_mode_and_provider_changes_valid(
    before: Configuration,
    mode: ModeArg,
    provider: ProviderArg,
    after_mode: Configuration,
    after_provider: Configuration,
)
    requires
        mode_set(before, mode, after_mode),
        provider_set(before, provider, after_provider),
    ensures
        config_check(after_mode) == Ok::<(), ConfigError>(()),
        config_check(after_provider) == Ok::<(), ConfigError>(()),
{
}

/// Setting the model or the base URL neither repairs nor breaks a
/// configuration: validation gives the same answer before and after.
pub proof fn lemma_overrides_keep_validity(
    before: Configuration,
    model: Option<Seq<char>>,
    base_url: Option<Seq<char>>,
    after: Configuration,
)
    requires
        overrides_applied(before, model, base_url, after),
    ensures
        config_check(after) == config_check(before),
{
}

} // verus!
