use grammar_check::cli::{
    apply_cli_overrides, first_run_configuration, parse_mode_choice, parse_provider_choice,
};
use grammar_check::commands::config::{
    load_or_default, run, set_mode, set_provider, ConfigAction, ConfigCommandError, ConfigStep,
    ModeArg, ProviderArg,
};
use grammar_check::models::config::{
    default_local_model, default_ollama_host, CloudConfig, CloudProvider, ConfigError,
    Configuration, LocalConfig, OperatingMode,
};
use grammar_check::models::edit::EditCategory;

fn cloud(provider: CloudProvider) -> Configuration {
    Configuration {
        mode: OperatingMode::Cloud,
        local: None,
        cloud: Some(CloudConfig { provider, model_name: None, base_url: None }),
    }
}

fn local_only() -> Configuration {
    Configuration { mode: OperatingMode::Local, local: Some(LocalConfig::default()), cloud: None }
}

#[test]
fn names_and_defaults() {
    assert_eq!(OperatingMode::Local.as_str(), "local");
    assert_eq!(OperatingMode::Cloud.as_str(), "cloud");
    assert_eq!(CloudProvider::Gemini.as_str(), "gemini");
    assert_eq!(CloudProvider::OpenAI.as_str(), "openai");
    assert_eq!(CloudProvider::Gemini.default_model(), "gemini-2.0-flash");
    assert_eq!(CloudProvider::OpenAI.default_model(), "gpt-4o-mini");
    assert_eq!(CloudProvider::Gemini.keyring_service(), "grammar-check-gemini");
    assert_eq!(CloudProvider::OpenAI.keyring_service(), "grammar-check-openai");
    assert_eq!(default_ollama_host(), "http://localhost:11434");
    assert_eq!(default_local_model(), "llama3");
    let l = LocalConfig::default();
    assert_eq!(l.ollama_host, "http://localhost:11434");
    assert_eq!(l.model_name, "llama3");
    assert_eq!(EditCategory::Grammar.as_str(), "grammar");
    assert_eq!(EditCategory::Style.as_str(), "style");
}

#[test]
fn validation_needs_the_modes_section() {
    assert_eq!(local_only().validate(), Ok(()));
    assert_eq!(cloud(CloudProvider::Gemini).validate(), Ok(()));
    let no_local = Configuration { mode: OperatingMode::Local, local: None, cloud: None };
    assert_eq!(no_local.validate(), Err(ConfigError::MissingLocalConfig));
    let no_cloud = Configuration { mode: OperatingMode::Cloud, local: Some(LocalConfig::default()), cloud: None };
    assert_eq!(no_cloud.validate(), Err(ConfigError::MissingCloudConfig));
}

#[test]
fn load_or_default_gives_local_defaults() {
    let c = load_or_default(None);
    assert_eq!(c.mode, OperatingMode::Local);
    assert!(c.cloud.is_none());
    assert_eq!(c.local.as_ref().unwrap().model_name, "llama3");
    let stored = load_or_default(Some(cloud(CloudProvider::OpenAI)));
    assert_eq!(stored.cloud.unwrap().provider, CloudProvider::OpenAI);
}

#[test]
fn set_mode_adds_missing_sections_and_keeps_others() {
    let c = set_mode(local_only(), ModeArg::Cloud);
    assert_eq!(c.mode, OperatingMode::Cloud);
    assert_eq!(c.cloud.as_ref().unwrap().provider, CloudProvider::Gemini);
    assert!(c.local.is_some());
    assert_eq!(c.validate(), Ok(()));

    let mut configured = cloud(CloudProvider::OpenAI);
    configured.cloud.as_mut().unwrap().model_name = Some("gpt-4o".to_string());
    let back = set_mode(set_mode(configured, ModeArg::Local), ModeArg::Cloud);
    let kept = back.cloud.unwrap();
    assert_eq!(kept.provider, CloudProvider::OpenAI);
    assert_eq!(kept.model_name.as_deref(), Some("gpt-4o"));
    assert_eq!(back.local.unwrap().ollama_host, "http://localhost:11434");
}

#[test]
fn set_provider_switches_to_cloud() {
    let c = set_provider(local_only(), ProviderArg::OpenAI);
    assert_eq!(c.mode, OperatingMode::Cloud);
    let cc = c.cloud.as_ref().unwrap();
    assert_eq!(cc.provider, CloudProvider::OpenAI);
    assert!(cc.model_name.is_none());
    assert!(c.local.is_some());
    assert_eq!(c.validate(), Ok(()));
}

#[test]
fn config_actions() {
    match run(&ConfigAction::SetMode { mode: ModeArg::Cloud }, None) {
        Ok(ConfigStep::Save(c)) => {
            assert_eq!(c.mode, OperatingMode::Cloud);
            assert_eq!(c.cloud.unwrap().provider, CloudProvider::Gemini);
        },
        other => panic!("unexpected {:?}", other),
    }
    match run(&ConfigAction::SetProvider { provider: ProviderArg::OpenAI }, None) {
        Ok(ConfigStep::Save(c)) => assert_eq!(c.cloud.unwrap().provider, CloudProvider::OpenAI),
        other => panic!("unexpected {:?}", other),
    }
    assert!(matches!(
        run(&ConfigAction::SetApiKey { key: None }, None),
        Err(ConfigCommandError::NoCloudProvider)
    ));
    assert!(matches!(
        run(&ConfigAction::SetApiKey { key: None }, Some(cloud(CloudProvider::OpenAI))),
        Ok(ConfigStep::PromptApiKey(CloudProvider::OpenAI))
    ));
    assert!(matches!(
        run(&ConfigAction::SetApiKey { key: Some(String::new()) }, Some(cloud(CloudProvider::Gemini))),
        Err(ConfigCommandError::EmptyApiKey)
    ));
    match run(&ConfigAction::SetApiKey { key: Some("sk-1".to_string()) }, Some(cloud(CloudProvider::Gemini))) {
        Ok(ConfigStep::StoreApiKey(p, k)) => {
            assert_eq!(p, CloudProvider::Gemini);
            assert_eq!(k, "sk-1");
        },
        other => panic!("unexpected {:?}", other),
    }
    assert!(matches!(
        run(&ConfigAction::DeleteApiKey, Some(cloud(CloudProvider::OpenAI))),
        Ok(ConfigStep::DeleteApiKey(CloudProvider::OpenAI))
    ));
    assert!(matches!(
        run(&ConfigAction::DeleteApiKey, Some(local_only())),
        Err(ConfigCommandError::NoCloudProvider)
    ));
    assert!(matches!(run(&ConfigAction::Show, None), Ok(ConfigStep::Show)));
    match run(&ConfigAction::SetModel { model: "gpt-4o".to_string() }, Some(cloud(CloudProvider::OpenAI))) {
        Ok(ConfigStep::Save(c)) => {
            assert_eq!(c.cloud.unwrap().model_name.as_deref(), Some("gpt-4o"));
        },
        other => panic!("unexpected {:?}", other),
    }
    match run(&ConfigAction::SetBaseUrl { url: "https://proxy.example/v1//".to_string() }, Some(cloud(CloudProvider::OpenAI))) {
        Ok(ConfigStep::Save(c)) => {
            assert_eq!(c.cloud.unwrap().base_url.as_deref(), Some("https://proxy.example/v1"));
        },
        other => panic!("unexpected {:?}", other),
    }
}

#[test]
fn overrides_apply_to_present_sections() {
    let mut c = Configuration {
        mode: OperatingMode::Cloud,
        local: Some(LocalConfig::default()),
        cloud: Some(CloudConfig { provider: CloudProvider::OpenAI, model_name: None, base_url: None }),
    };
    apply_cli_overrides(&mut c, Some("m1"), Some("https://x.example/v1/"));
    let cc = c.cloud.as_ref().unwrap();
    assert_eq!(cc.model_name.as_deref(), Some("m1"));
    assert_eq!(cc.base_url.as_deref(), Some("https://x.example/v1"));
    assert_eq!(c.local.as_ref().unwrap().model_name, "m1");
    assert_eq!(c.validate(), Ok(()));

    let mut l = local_only();
    apply_cli_overrides(&mut l, None, Some("https://y.example"));
    assert!(l.cloud.is_none());
    assert_eq!(l.local.as_ref().unwrap().model_name, "llama3");

    let mut broken = Configuration { mode: OperatingMode::Cloud, local: None, cloud: None };
    apply_cli_overrides(&mut broken, Some("m"), None);
    assert_eq!(broken.validate(), Err(ConfigError::MissingCloudConfig));
}

#[test]
fn first_run_answers() {
    assert_eq!(parse_mode_choice(" 1\n"), Some(OperatingMode::Local));
    assert_eq!(parse_mode_choice("local"), Some(OperatingMode::Local));
    assert_eq!(parse_mode_choice("\t2 "), Some(OperatingMode::Cloud));
    assert_eq!(parse_mode_choice("cloud\r\n"), Some(OperatingMode::Cloud));
    assert_eq!(parse_mode_choice("3"), None);
    assert_eq!(parse_mode_choice("Local"), None);
    assert_eq!(parse_mode_choice(""), None);
    assert_eq!(parse_provider_choice("1"), Some(CloudProvider::Gemini));
    assert_eq!(parse_provider_choice(" openai "), Some(CloudProvider::OpenAI));
    assert_eq!(parse_provider_choice("2"), Some(CloudProvider::OpenAI));
    assert_eq!(parse_provider_choice("gemini pro"), None);
}

#[test]
fn first_run_configurations_validate() {
    let l = first_run_configuration(OperatingMode::Local, None);
    assert_eq!(l.mode, OperatingMode::Local);
    assert_eq!(l.local.as_ref().unwrap().ollama_host, "http://localhost:11434");
    assert!(l.cloud.is_none());
    assert_eq!(l.validate(), Ok(()));
    let c = first_run_configuration(OperatingMode::Cloud, Some(CloudProvider::OpenAI));
    assert_eq!(c.cloud.as_ref().unwrap().provider, CloudProvider::OpenAI);
    assert!(c.local.is_none());
    assert_eq!(c.validate(), Ok(()));
    let g = first_run_configuration(OperatingMode::Cloud, None);
    assert_eq!(g.cloud.unwrap().provider, CloudProvider::Gemini);
}
