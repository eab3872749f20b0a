//! Where chat requests go.

use vstd::prelude::*;
use vstd::string::StringExecFns;

verus! {

/// The OpenAI chat completions endpoint.
pub open spec fn default_openai_endpoint() -> Seq<char> {
    "https://api.openai.com/v1/chat/completions"@
}

/// The chat completions endpoint of an OpenAI-compatible API at `base_url`,
/// or OpenAI's own when no base URL is configured.
pub fn openai_endpoint(base_url: Option<&str>) -> (r: String)
    ensures
        r@ == match base_url {
            Some(b) => b@ + "/chat/completions"@,
            None => default_openai_endpoint(),
        },
{
    match base_url {
        Some(b) => {
            let mut url = String::from_str(b);
            url.append("/chat/completions");
            url
        },
        None => String::from_str("https://api.openai.com/v1/chat/completions"),
    }
}

} // verus!
