//! The `check` and `fix` commands: which provider checks the text, and how
//! the provider's answers for the chunks become one result.

use vstd::prelude::*;
use crate::models::config::{
    default_local_model, default_ollama_host, spec_default_local_model,
    spec_default_model, spec_default_ollama_host, CloudConfig, CloudProvider, Configuration,
    OperatingMode,
};
use crate::models::edit::{CheckResult, Edit, ProcessingMetadata};
use crate::services::chunker::{
    chunk_in_doc, chunk_js_start, chunk_text_spec, chunk_views, document_edits,
    in_primary, lemma_chunks_cover_document, merge_allowed, merge_chunk_edits, pair_count,
    chunk_text, overlap_as_asked, sorted_first_occurrences, Chunk, ChunkingOptions,
};
use crate::services::position::lemma_subtext_offsets;
use crate::text::{
    byte_char_index, chars_of, is_byte_boundary, lemma_offset_bounds, lemma_offset_full, trim,
    trimmed, utf16_length, utf8_length,
};

verus! {

/// Output format of the `check` command.
#[derive(Debug, Clone, Copy, PartialEq, Eq, Structural)]
pub enum OutputFormat {
    /// Colored human-readable output.
    Human,
    /// Machine-readable JSON.
    Json,
}

impl Default for OutputFormat {
    fn default() -> (r: Self)
        ensures
            r == OutputFormat::Human,
    {
        OutputFormat::Human
    }
}

/// The provider a check runs against.
#[derive(Debug)]
pub enum ProviderChoice {
    /// A local Ollama instance.
    Ollama { host: String, model: String },
    /// A cloud API; its key is kept in the keychain.
    Cloud { provider: CloudProvider, model: String, base_url: Option<String> },
}

/// Why a check cannot start.
#[derive(Debug, Clone, Copy, PartialEq, Eq, Structural)]
pub enum CheckError {
    /// Cloud mode is selected but no cloud provider is configured.
    MissingCloudConfig,
    /// No API key is stored for the provider.
    MissingApiKey(CloudProvider),
}

/// The API key to use for the configured cloud provider, given what the
/// keychain holds under the provider's service name (`None` when nothing is
/// stored there).
pub fn get_api_key_for_provider(cloud: &CloudConfig, stored: Option<String>) -> (r: Result<
    String,
    CheckError,
>)
    ensures
        r == (match stored {
            Some(k) => Ok(k),
            None => Err(CheckError::MissingApiKey(cloud.provider)),
        }),
{
    match stored {
        Some(key) => Ok(key),
        None => Err(CheckError::MissingApiKey(cloud.provider)),
    }
}

/// Whether `text` holds nothing but white space (there is nothing to check).
pub fn is_blank(text: &str) -> (r: bool)
    ensures
        r == (trimmed(text@).len() == 0),
{
    trim(text).is_empty()
}

/// The provider the configuration selects: in local mode the configured (or
/// default) Ollama host and model; in cloud mode the configured provider with
/// its configured model, or the provider's default model.
pub fn select_provider(config: &Configuration) -> (r: Result<ProviderChoice, CheckError>)
    ensures
        match config.mode {
            OperatingMode::Local => r matches Ok(ProviderChoice::Ollama { host, model }) && match config.local {
                Some(l) => host@ == l.ollama_host@ && model@ == l.model_name@,
                None => host@ == spec_default_ollama_host() && model@ == spec_default_local_model(),
            },
            OperatingMode::Cloud => match config.cloud {
                None => r == Err::<ProviderChoice, CheckError>(CheckError::MissingCloudConfig),
                Some(c) => r matches Ok(ProviderChoice::Cloud { provider, model, base_url }) && {
                    &&& provider == c.provider
                    &&& model@ == match c.model_name {
                        Some(m) => m@,
                        None => spec_default_model(c.provider),
                    }
                    &&& base_url == c.base_url
                },
            },
        },
{
    match config.mode {
        OperatingMode::Local => match &config.local {
            Some(local) => Ok(
                ProviderChoice::Ollama {
                    host: local.ollama_host.clone(),
                    model: local.model_name.clone(),
                },
            ),
            None => Ok(
                ProviderChoice::Ollama { host: default_ollama_host(), model: default_local_model() },
            ),
        },
        OperatingMode::Cloud => {
            let cloud = match &config.cloud {
                Some(c) => c,
                None => return Err(CheckError::MissingCloudConfig),
            };
            let model = match &cloud.model_name {
                Some(m) => m.clone(),
                None => cloud.provider.default_model().to_owned(),
            };
            let base_url = match &cloud.base_url {
                Some(u) => Some(u.clone()),
                None => None,
            };
            Ok(ProviderChoice::Cloud { provider: cloud.provider, model, base_url })
        },
    }
}

/// Texts of at most this many chars are checked in a single request.
pub const MAX_UNCHUNKED_CHARS: usize = 50_000;

/// The chunking options a text of `n` chars is checked with: one chunk for
/// the whole text up to `MAX_UNCHUNKED_CHARS` chars, else the default options.
pub open spec fn check_options(n: int) -> (int, int) {
    if n <= MAX_UNCHUNKED_CHARS {
        (MAX_UNCHUNKED_CHARS as int, 0)
    } else {
        (3500, 400)
    }
}

/// The chunks a text is checked in: the whole text as one chunk when it has
/// at most `MAX_UNCHUNKED_CHARS` chars, else the chunks that `chunk_text`
/// makes with the default options.
pub fn chunks_for_check(text: &str) -> (r: Vec<Chunk>)
    ensures
        chunk_views(r@) == chunk_text_spec(
            text@,
            check_options(text@.len() as int).0,
            check_options(text@.len() as int).1,
        ),
        text@.len() <= MAX_UNCHUNKED_CHARS ==> chunk_views(r@) == seq![
            (text@, 0int, 0int, utf16_length(text@) as int),
        ],
        text@.len() > MAX_UNCHUNKED_CHARS ==> forall|k: int|
            0 <= k < r.len() ==> #[trigger] overlap_as_asked(text@, r@[k]@, 400),
{
    proof {
        lemma_check_chunks_overlap(text@);
    }
    let n = chars_of(text).len();
    let r = if n <= MAX_UNCHUNKED_CHARS {
        chunk_text(text, &ChunkingOptions { target_size: MAX_UNCHUNKED_CHARS, overlap_size: 0 })
    } else {
        chunk_text(text, &ChunkingOptions::default())
    };
    proof {
        let cs = chunk_text_spec(
            text@,
            check_options(text@.len() as int).0,
            check_options(text@.len() as int).1,
        );
        assert(chunk_views(r@) == cs);
        if text@.len() > MAX_UNCHUNKED_CHARS {
            assert forall|k: int| 0 <= k < r.len() implies #[trigger] overlap_as_asked(
                text@,
                r@[k]@,
                400,
            ) by {
                assert(chunk_views(r@)[k] == r@[k]@);
                assert(overlap_as_asked(text@, cs[k], 400));
            }
        }
    }
    r
}

/// A text longer than `MAX_UNCHUNKED_CHARS` is checked in chunks that each
/// extend 400 UTF-16 units beyond their primary region on each side (cut off
/// at the ends of the text, and one unit more where that splits a surrogate
/// pair).
pub proof fn lemma_check_chunks_overlap(text: Seq<char>)
    ensures
        text.len() > MAX_UNCHUNKED_CHARS ==> forall|k: int|
            0 <= k < chunk_text_spec(
                text,
                check_options(text.len() as int).0,
                check_options(text.len() as int).1,
            ).len() ==> #[trigger] overlap_as_asked(
                text,
                chunk_text_spec(
                    text,
                    check_options(text.len() as int).0,
                    check_options(text.len() as int).1,
                )[k],
                400,
            ),
{
    if text.len() > MAX_UNCHUNKED_CHARS {
        lemma_chunks_cover_document(text, 3500, 400);
    }
}

/// The result of checking `text`, given the edits the provider returned for
/// each chunk: a single chunk's edits are taken as they are; the edits of
/// several chunks are merged, and the number of chunks is recorded.
pub fn check_result(
    text: String,
    chunks: &[Chunk],
    chunk_edits: Vec<Vec<Edit>>,
    mode: OperatingMode,
    provider: String,
    model: String,
    processing_time_ms: u64,
) -> (r: CheckResult)
    requires
        chunks.len() >= 1,
        chunk_edits.len() == chunks.len(),
        chunks.len() > 1 ==> merge_allowed(text@, chunks@, chunk_edits@),
    ensures
        r.original_text == text,
        r.metadata == (ProcessingMetadata {
            mode,
            provider,
            model,
            processing_time_ms,
            chunks_processed: if chunks.len() == 1 {
                None
            } else {
                Some(chunks.len() as u32)
            },
        }),
        chunks.len() == 1 ==> r.edits@ == chunk_edits@[0]@,
        chunks.len() > 1 ==> sorted_first_occurrences(
            document_edits(text@, chunks@, chunk_edits@, pair_count(chunks@, chunk_edits@)),
            r.edits@,
        ),
{
    if chunks.len() == 1 {
        let mut chunk_edits = chunk_edits;
        let edits = chunk_edits.remove(0);
        return CheckResult {
            original_text: text,
            edits,
            metadata: ProcessingMetadata {
                mode,
                provider,
                model,
                processing_time_ms,
                chunks_processed: None,
            },
        };
    }
    let count = chunks.len() as u32;
    let edits = merge_chunk_edits(chunks, chunk_edits, text.as_str());
    CheckResult {
        original_text: text,
        edits,
        metadata: ProcessingMetadata {
            mode,
            provider,
            model,
            processing_time_ms,
            chunks_processed: Some(count),
        },
    }
}

/// The chunks that `chunk_text` makes of a text can always be merged, whatever
/// edits the provider returns for them, as long as none starts after its end
/// (which validation guarantees).
pub proof fn lemma_chunks_mergeable(
    text: Seq<char>,
    opts: ChunkingOptions,
    chunks: Seq<Chunk>,
    chunk_edits: Seq<Vec<Edit>>,
)
    requires
        chunk_views(chunks) == chunk_text_spec(
            text,
            opts.target_size as int,
            opts.overlap_size as int,
        ),
        utf8_length(text) <= usize::MAX,
        forall|k: int, q: int|
            0 <= k < pair_count(chunks, chunk_edits) && 0 <= q < chunk_edits[k].len()
                ==> #[trigger] chunk_edits[k]@[q].start_index <= chunk_edits[k]@[q].end_index,
    ensures
        merge_allowed(text, chunks, chunk_edits),
{
    lemma_chunks_cover_document(text, opts.target_size, opts.overlap_size);
    let vs = chunk_views(chunks);
    assert forall|k: int| 0 <= k < pair_count(chunks, chunk_edits) implies is_byte_boundary(
        text,
        #[trigger] chunks[k].doc_start_byte as int,
    ) by {
        assert(vs[k] == chunks[k]@);
        assert(chunk_in_doc(text, vs[k]));
    }
    assert forall|k: int, q: int|
        0 <= k < pair_count(chunks, chunk_edits) && 0 <= q < chunk_edits[k].len() && in_primary(
            #[trigger] chunk_edits[k]@[q],
            chunks[k].primary_range.start as int,
            chunks[k].primary_range.end as int,
        ) implies {
        &&& chunk_edits[k]@[q].start_index + chunk_js_start(text, chunks[k].doc_start_byte as int)
            <= usize::MAX
        &&& chunk_edits[k]@[q].end_index + chunk_js_start(text, chunks[k].doc_start_byte as int)
            <= usize::MAX
    } by {
        let v = vs[k];
        assert(v == chunks[k]@);
        assert(chunk_in_doc(text, v));
        let a = byte_char_index(text, v.1);
        let b = a + v.0.len();
        assert(v.0 == text.subrange(a, b));
        lemma_subtext_offsets(text, a, b, b - a);
        lemma_offset_full(v.0);
        lemma_offset_bounds(text, b);
    }
}

} // verus!
