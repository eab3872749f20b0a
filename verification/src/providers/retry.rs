//! The retry policy for cloud requests: after the first try, transient
//! failures are retried up to three times, waiting 1 s, 2 s and 4 s (plus
//! 50 ms) before the retries.

use vstd::prelude::*;
use vstd::arithmetic::power2::{lemma2_to64, lemma_pow2_strictly_increases, lemma_pow2_unfold, pow2};
use vstd::bits::{lemma_u64_pow2_no_overflow, lemma_u64_shl_is_mul};
use crate::text::chars_of;

verus! {

/// How many times a request is attempted in all: the first try and up to
/// three retries.
pub const MAX_ATTEMPTS: u32 = 4;

/// `needle` occurs in `hay` as a contiguous run of chars.
pub open spec fn contains_text(hay: Seq<char>, needle: Seq<char>) -> bool {
    exists|i: int| 0 <= i && i + needle.len() <= hay.len() && #[trigger] hay.subrange(i, i + needle.len()) == needle
}

/// An error message marks a transient failure: it mentions HTTP 429, 502 or
/// 503, or a timeout.
pub open spec fn is_retryable_spec(message: Seq<char>) -> bool {
    ||| contains_text(message, "429"@)
    ||| contains_text(message, "502"@)
    ||| contains_text(message, "503"@)
    ||| contains_text(message, "timeout"@)
}

/// Whether `needle` occurs in `hay`.
pub fn contains(hay: &str, needle: &str) -> (r: bool)
    ensures
        r == contains_text(hay@, needle@),
{
    let h = chars_of(hay);
    let n = chars_of(needle);
    if n.len() > h.len() {
        proof {
            assert forall|i: int| 0 <= i && i + n@.len() <= h@.len() implies #[trigger] h@.subrange(i, i + n@.len()) != n@ by {}
        }
        return false;
    }
    let mut i: usize = 0;
    while i <= h.len() - n.len()
        invariant
            h@ == hay@,
            n@ == needle@,
            n.len() <= h.len(),
            0 <= i <= h.len() - n.len() + 1,
            forall|k: int| 0 <= k < i ==> #[trigger] h@.subrange(k, k + n@.len()) != n@,
        decreases h.len() - i,
    {
        let mut j: usize = 0;
        while j < n.len() && h[i + j] == n[j]
            invariant
                h@ == hay@,
                n@ == needle@,
                i + n.len() <= h.len(),
                0 <= j <= n.len(),
                forall|m: int| 0 <= m < j ==> h@[i + m] == n@[m],
            decreases n.len() - j,
        {
            j = j + 1;
        }
        if j == n.len() {
            proof {
                assert(h@.subrange(i as int, i + n@.len()) =~= n@);
            }
            return true;
        }
        proof {
            assert(h@.subrange(i as int, i + n@.len())[j as int] != n@[j as int]);
        }
        i = i + 1;
    }
    false
}

/// Whether an error message marks a transient failure worth retrying.
pub fn is_retryable(message: &str) -> (r: bool)
    ensures
        r == is_retryable_spec(message@),
{
    contains(message, "429") || contains(message, "502") || contains(message, "503") || contains(
        message,
        "timeout",
    )
}

/// Milliseconds to wait before attempt number `attempt` (counted from 0,
/// at least 1): 1 s, 2 s, 4 s, ... plus 50 ms.
pub open spec fn backoff_spec(attempt: nat) -> int {
    (pow2((attempt - 1) as nat) * 1000 + 50) as int
}

/// The backoff doubles from one attempt to the next (beyond the fixed 50 ms).
pub proof fn lemma_backoff_doubles(attempt: nat)
    requires
        1 <= attempt,
    ensures
        backoff_spec(attempt + 1) - 50 == 2 * (backoff_spec(attempt) - 50),
{
    lemma_pow2_unfold(attempt);
}

/// Milliseconds to wait before attempt number `attempt` (counted from 0):
/// 1 s, 2 s, 4 s, ... plus 50 ms.
pub fn backoff_ms(attempt: u32) -> (r: u64)
    requires
        1 <= attempt <= 55,
    ensures
        r == backoff_spec(attempt as nat),
{
    let shift = (attempt - 1) as u64;
    proof {
        lemma_u64_pow2_no_overflow(shift as nat);
        lemma2_to64();
        if shift < 54 {
            lemma_pow2_strictly_increases(shift as nat, 54);
        }
        assert(pow2(54) == 0x40000000000000) by {
            vstd::arithmetic::power2::lemma2_to64_rest();
        }
        lemma_u64_shl_is_mul(1, shift);
    }
    (1u64 << shift) * 1000 + 50
}

/// What to do after attempt number `attempt` (counted from 0) failed.
#[derive(Debug, Clone, Copy, PartialEq, Eq, Structural)]
pub enum RetryStep {
    /// The failure is not transient: give up with this error.
    GiveUp,
    /// Wait this many milliseconds, then make the next attempt.
    RetryAfter(u64),
    /// The failure is transient but no attempt is left: give up with it.
    Exhausted,
}

/// Decides what follows a failed attempt, from the attempt's number and the
/// error's message.
pub fn after_failure(attempt: u32, message: &str) -> (r: RetryStep)
    requires
        attempt < MAX_ATTEMPTS,
    ensures
        !is_retryable_spec(message@) ==> r == RetryStep::GiveUp,
        is_retryable_spec(message@) && attempt + 1 < MAX_ATTEMPTS ==> r == RetryStep::RetryAfter(
            backoff_spec((attempt + 1) as nat) as u64,
        ),
        is_retryable_spec(message@) && attempt + 1 >= MAX_ATTEMPTS ==> r == RetryStep::Exhausted,
{
    if !is_retryable(message) {
        return RetryStep::GiveUp;
    }
    if attempt + 1 < MAX_ATTEMPTS {
        RetryStep::RetryAfter(backoff_ms(attempt + 1))
    } else {
        RetryStep::Exhausted
    }
}

} // verus!
