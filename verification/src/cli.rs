//! Command-line decisions: per-invocation overrides and the first-run choices.

use vstd::prelude::*;
use vstd::string::StringExecFns;
use crate::models::config::{
    CloudConfig, CloudProvider, Configuration, LocalConfig, OperatingMode,
};
use crate::text::{chars_of, push_char, same_text, trim, trimmed};

verus! {

/// `s` without its trailing '/' chars.
pub open spec fn without_trailing_slashes(s: Seq<char>) -> Seq<char>
    decreases s.len(),
{
    if s.len() > 0 && s.last() == '/' {
        without_trailing_slashes(s.drop_last())
    } else {
        s
    }
}

/// `after` is `before` with the model and base URL overrides applied: the
/// model replaces the cloud and the local model, the base URL (without
/// trailing slashes) replaces the cloud base URL; absent sections stay absent.
pub open spec fn overrides_applied(
    before: Configuration,
    model: Option<Seq<char>>,
    base_url: Option<Seq<char>>,
    after: Configuration,
) -> bool {
    &&& after.mode == before.mode
    &&& match before.cloud {
        None => after.cloud is None,
        Some(c) => after.cloud matches Some(c2) && {
            &&& c2.provider == c.provider
            &&& match model {
                Some(m) => c2.model_name matches Some(n) && n@ == m,
                None => c2.model_name == c.model_name,
            }
            &&& match base_url {
                Some(u) => c2.base_url matches Some(b) && b@ == without_trailing_slashes(u),
                None => c2.base_url == c.base_url,
            }
        },
    }
    &&& match before.local {
        None => after.local is None,
        Some(l) => after.local matches Some(l2) && {
            &&& l2.ollama_host == l.ollama_host
            &&& match model {
                Some(m) => l2.model_name@ == m,
                None => l2.model_name == l.model_name,
            }
        },
    }
}

/// The view of an optional text argument.
pub open spec fn opt_view(o: Option<&str>) -> Option<Seq<char>> {
    match o {
        Some(s) => Some(s@),
        None => None,
    }
}

/// `text` without its trailing '/' chars.
fn trim_trailing_slashes(text: &str) -> (r: String)
    ensures
        r@ == without_trailing_slashes(text@),
{
    let chars = chars_of(text);
    let ghost s = text@;
    let mut end = chars.len();
    proof {
        assert(s.take(s.len() as int) =~= s);
    }
    while end > 0 && chars[end - 1] == '/'
        invariant
            chars@ == s,
            0 <= end <= s.len(),
            without_trailing_slashes(s.take(end as int)) == without_trailing_slashes(s),
        decreases end,
    {
        proof {
            assert(s.take(end as int).drop_last() =~= s.take(end - 1));
        }
        end = end - 1;
    }
    let mut out = String::new();
    let mut i: usize = 0;
    while i < end
        invariant
            chars@ == s,
            0 <= i <= end <= s.len(),
            out@ == s.take(i as int),
        decreases end - i,
    {
        push_char(&mut out, chars[i]);
        proof {
            assert(s.take(i + 1) =~= s.take(i as int).push(s[i as int]));
        }
        i = i + 1;
    }
    proof {
        if end > 0 {
            assert(s.take(end as int).last() == s[end - 1]);
        }
    }
    out
}

/// Applies per-invocation overrides of the model and the base URL.
pub fn apply_cli_overrides(config: &mut Configuration, model: Option<&str>, base_url: Option<&str>)
    ensures
        overrides_applied(*old(config), opt_view(model), opt_view(base_url), *final(config)),
        model is None && base_url is None ==> *final(config) == *old(config),
{
    if model.is_none() && base_url.is_none() {
        return;
    }
    if let Some(mut cloud) = config.cloud.take() {
        if let Some(m) = model {
            cloud.model_name = Some(String::from_str(m));
        }
        if let Some(u) = base_url {
            cloud.base_url = Some(trim_trailing_slashes(u));
        }
        config.cloud = Some(cloud);
    }
    if let Some(mut local) = config.local.take() {
        if let Some(m) = model {
            local.model_name = String::from_str(m);
        }
        config.local = Some(local);
    }
}

/// The mode a first-run answer selects: "1" or "local", "2" or "cloud"
/// (surrounding white space ignored); `None` asks again.
pub fn parse_mode_choice(line: &str) -> (r: Option<OperatingMode>)
    ensures
        r == (if trimmed(line@) == "1"@ || trimmed(line@) == "local"@ {
            Some(OperatingMode::Local)
        } else if trimmed(line@) == "2"@ || trimmed(line@) == "cloud"@ {
            Some(OperatingMode::Cloud)
        } else {
            None
        }),
{
    let answer = trim(line);
    if same_text(answer, "1") || same_text(answer, "local") {
        Some(OperatingMode::Local)
    } else if same_text(answer, "2") || same_text(answer, "cloud") {
        Some(OperatingMode::Cloud)
    } else {
        None
    }
}

/// The provider a first-run answer selects: "1" or "gemini", "2" or "openai"
/// (surrounding white space ignored); `None` asks again.
pub fn parse_provider_choice(line: &str) -> (r: Option<CloudProvider>)
    ensures
        r == (if trimmed(line@) == "1"@ || trimmed(line@) == "gemini"@ {
            Some(CloudProvider::Gemini)
        } else if trimmed(line@) == "2"@ || trimmed(line@) == "openai"@ {
            Some(CloudProvider::OpenAI)
        } else {
            None
        }),
{
    let answer = trim(line);
    if same_text(answer, "1") || same_text(answer, "gemini") {
        Some(CloudProvider::Gemini)
    } else if same_text(answer, "2") || same_text(answer, "openai") {
        Some(CloudProvider::OpenAI)
    } else {
        None
    }
}

/// The configuration created on first run: local mode with default settings,
/// or cloud mode with the chosen provider (Gemini when none is given).
pub fn first_run_configuration(mode: OperatingMode, provider: Option<CloudProvider>) -> (r: Configuration)
    ensures
        r.mode == mode,
        mode == OperatingMode::Local ==> r.cloud is None && (r.local matches Some(l)
            && l.ollama_host@ == crate::models::config::spec_default_ollama_host()
            && l.model_name@ == crate::models::config::spec_default_local_model()),
        mode == OperatingMode::Cloud ==> r.local is None && (r.cloud matches Some(c)
            && c.provider == (match provider { Some(p) => p, None => CloudProvider::Gemini })
            && c.model_name is None && c.base_url is None),
        crate::models::config::config_check(r) == Ok::<(), crate::models::config::ConfigError>(()),
{
    match mode {
        OperatingMode::Local => Configuration {
            mode: OperatingMode::Local,
            local: Some(LocalConfig::default()),
            cloud: None,
        },
        OperatingMode::Cloud => {
            let provider = match provider {
                Some(p) => p,
                None => CloudProvider::Gemini,
            };
            Configuration {
                mode: OperatingMode::Cloud,
                local: None,
                cloud: Some(CloudConfig { provider, model_name: None, base_url: None }),
            }
        },
    }
}

} // verus!
