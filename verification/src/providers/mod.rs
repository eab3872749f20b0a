//! What the language-model providers share: the prompts, the retry policy,
//! the endpoints and the meaning of HTTP status codes.

pub mod endpoint;
pub mod prompts;
pub mod retry;
pub mod status;
