# grammar-check

A grammar and style checker for the command line. Text is sent to a language
model (a local Ollama instance, or the Gemini or OpenAI APIs); the edits the
model suggests are validated, mapped to document positions, and either shown
or applied.

Edit positions are UTF-16 code unit indices (JavaScript string positions).
Texts of up to 50,000 chars are checked in one request; longer ones are split
into chunks of about 3,500 chars with 400 UTF-16 units of overlap on each side.
Of two suggested edits that overlap, the one the model listed first is
applied. Cloud requests that fail transiently (HTTP 429, 502, 503, timeouts)
are retried up to three times after the first try, waiting 1 s, 2 s and 4 s.

`config --set-model` sets the model of both the local and the cloud section
(whichever are present); `config --set-base-url` stores the URL without
trailing slashes.

## Layout

- `src/` — the library, verified with Verus:
  - `text.rs`: the model of text (chars, UTF-8 and UTF-16 offsets) and small
    string helpers.
  - `services/position.rs`: UTF-16 / byte position conversion, slicing by
    UTF-16 range, line-ending normalization.
  - `services/chunker.rs`: splitting long documents into overlapping chunks
    at paragraph or sentence boundaries, and merging the chunks' edits back
    into document positions.
  - `services/validator.rs`: which suggested edits are kept.
  - `services/diff.rs`: applying edits.
  - `models/`, `cli.rs`, `commands/`: configuration rules, per-invocation
    overrides, first-run choices, the `config` command's decisions, provider
    selection and assembling a check result.
  - `providers/`: the prompt, the retry policy for cloud requests and what
    an HTTP status means for a request.
  - `output/human.rs`: what the human-readable report shows for an edit.
- `app/` — the program around the library: argument parsing, the config
  file and the OS keychain, HTTP requests, printing.
- `tests/` — tests of the library.

Each public function states its result in its contract; the laws that relate
several functions (positions round-trip, chunks cover the document, shifted
edits name the same text, edits are applied in place, the order of disjoint
edits does not matter, validated edits always
apply, configuration changes keep the configuration valid, the backoff
doubles) are proof functions next to the code they are about.
