//! The decisions around embedding requests: when a failed request is sent
//! again and after how long, and how texts are split into batches.

use vstd::prelude::*;

verus! {

/// How many times a failed request is sent again.
pub const MAX_RETRIES: u32 = 5;

/// The base of the backoff, in milliseconds.
pub const BACKOFF_BASE_MS: u64 = 500;

/// What to do after an embedding request answered with some status.
#[derive(Debug, PartialEq, Eq, Clone, Copy)]
pub enum EmbedStep {
    /// The request succeeded: read the embeddings.
    Done,
    /// Wait `backoff_ms` and send the request again, as retry number `retries`.
    Retry { retries: u32, backoff_ms: u64 },
    /// Give up with the status as the error.
    Fail,
}

/// A 2xx status (`StatusCode::is_success`).
pub open spec fn is_success(status: u16) -> bool {
    200 <= status <= 299
}

/// Too many requests (429), or a server error (5xx).
pub open spec fn is_retryable(status: u16) -> bool {
    status == 429 || (500 <= status <= 599)
}

/// Two to the power `n`.
pub open spec fn pow2(n: nat) -> nat
    decreases n,
{
    if n == 0 {
        1
    } else {
        2 * pow2((n - 1) as nat)
    }
}

/// The step after a response with `status` when `retries` retries have been
/// made already, as `next_step` decides it.
pub open spec fn step_after(status: u16, retries: u32) -> EmbedStep {
    if is_success(status) {
        EmbedStep::Done
    } else if is_retryable(status) && retries < MAX_RETRIES {
        EmbedStep::Retry {
            retries: (retries + 1) as u32,
            backoff_ms: (BACKOFF_BASE_MS * pow2((retries + 1) as nat)) as u64,
        }
    } else {
        EmbedStep::Fail
    }
}

/// The step after a response with `status`, when `retries` retries have been
/// made already: done on success; on 429 or 5xx, while fewer than
/// `MAX_RETRIES` retries were made, retry after `500 * 2^(retries + 1)` ms;
/// otherwise fail.
pub fn next_step(status: u16, retries: u32) -> (step: EmbedStep)
    ensures
        is_success(status) ==> step == EmbedStep::Done,
        !is_success(status) && is_retryable(status) && retries < MAX_RETRIES ==> step
            == (EmbedStep::Retry {
            retries: (retries + 1) as u32,
            backoff_ms: (BACKOFF_BASE_MS * pow2((retries + 1) as nat)) as u64,
        }),
        !is_success(status) && !(is_retryable(status) && retries < MAX_RETRIES) ==> step
            == EmbedStep::Fail,
        step == step_after(status, retries),
{
    if 200 <= status && status <= 299 {
        return EmbedStep::Done;
    }
    if (status == 429 || (500 <= status && status <= 599)) && retries < MAX_RETRIES {
        let next: u32 = retries + 1;
        let mut factor: u64 = 1;
        let mut k: u32 = 0;
        while k < next
            invariant
                k <= next <= MAX_RETRIES,
                factor == pow2(k as nat),
                factor <= 32,
            decreases next - k,
        {
            proof {
                assert(pow2((k + 1) as nat) == 2 * pow2(k as nat));
                if k < 5 {
                    assert(pow2(k as nat) <= 16) by {
                        reveal_with_fuel(pow2, 6);
                        assert(k <= 4);
                    }
                }
            }
            factor = factor * 2;
            k = k + 1;
        }
        return EmbedStep::Retry { retries: next, backoff_ms: BACKOFF_BASE_MS * factor };
    }
    EmbedStep::Fail
}

/// The consecutive ranges `[start, start + size)`, `[start + size, ...)`, ...
/// that cover `start..len`, the last one cut at `len`.
pub open spec fn batches_from(start: int, len: int, size: int) -> Seq<(int, int)>
    decreases (if start < len { len - start } else { 0 }),
{
    if start >= len || size <= 0 {
        seq![]
    } else {
        seq![(start, if start + size < len { start + size } else { len })] + batches_from(
            start + size,
            len,
            size,
        )
    }
}

/// The index ranges, as integers.
pub open spec fn ranges_of(v: Seq<(usize, usize)>) -> Seq<(int, int)> {
    v.map_values(|r: (usize, usize)| (r.0 as int, r.1 as int))
}

/// The ranges of the batches of at most `size` items that `len` items form
/// (`slice::chunks`).
pub fn batch_ranges(len: usize, size: usize) -> (res: Vec<(usize, usize)>)
    requires
        size > 0,
    ensures
        ranges_of(res@) == batches_from(0, len as int, size as int),
{
    let mut res: Vec<(usize, usize)> = Vec::new();
    let mut start: usize = 0;
    while start < len
        invariant
            start <= len,
            size > 0,
            ranges_of(res@) + batches_from(start as int, len as int, size as int) == batches_from(
                0,
                len as int,
                size as int,
            ),
        decreases len - start,
    {
        let end: usize = if len - start > size {
            start + size
        } else {
            len
        };
        let ghost before = ranges_of(res@);
        res.push((start, end));
        assert(ranges_of(res@) == before.push((start as int, end as int)));
        assert(ranges_of(res@) + batches_from(end as int, len as int, size as int) =~= before
            + batches_from(start as int, len as int, size as int)) by {
            if end < len {
                assert(end == start + size);
            } else {
                assert(batches_from(end as int, len as int, size as int).len() == 0);
                assert(batches_from(start as int + size as int, len as int, size as int).len() == 0);
            }
        }
        start = end;
    }
    assert(batches_from(start as int, len as int, size as int).len() == 0);
    assert(ranges_of(res@) =~= batches_from(0, len as int, size as int));
    res
}

/// Batches cover their items in order without gaps: the first starts at
/// `start`, each one holds between one and `size` items, each one but the
/// last holds exactly `size`, each next one starts where the one before
/// ended, and the last one ends at `len`; there are `ceil((len - start) / size)`
/// of them.
pub proof fn law_batches_partition(start: int, len: int, size: int)
    requires
        size > 0,
    ensures
        ({
            let b = batches_from(start, len, size);
            &&& start < len ==> b.len() > 0 && b[0].0 == start && b.last().1 == len
            &&& start < len ==> b.len() == (len - start + size - 1) / size
            &&& start >= len ==> b.len() == 0
            &&& forall|k: int|
                0 <= k < b.len() ==> b[k].0 < b[k].1 <= b[k].0 + size && (k + 1 < b.len() ==> (
                b[k].1 == b[k + 1].0 && b[k].1 - b[k].0 == size))
        }),
    decreases (if start < len { len - start } else { 0 }),
{
    if start < len {
        law_batches_partition(start + size, len, size);
        let b = batches_from(start, len, size);
        let rest = batches_from(start + size, len, size);
        assert(b == seq![(start, if start + size < len { start + size } else { len })] + rest);
        assert forall|k: int|
            0 <= k < b.len() implies b[k].0 < b[k].1 <= b[k].0 + size && (k + 1 < b.len() ==> (
            b[k].1 == b[k + 1].0 && b[k].1 - b[k].0 == size)) by {
            if k > 0 {
                assert(b[k] == rest[k - 1]);
                if k + 1 < b.len() {
                    assert(b[k + 1] == rest[k]);
                }
            } else if b.len() > 1 {
                assert(b[1] == rest[0]);
            }
        }
        if rest.len() > 0 {
            assert(b.last() == rest.last());
        }
        if start + size < len {
            vstd::arithmetic::div_mod::lemma_div_plus_one(len - start - 1, size);
            assert(size + (len - start - 1) == len - start + size - 1);
        } else {
            vstd::arithmetic::div_mod::lemma_div_multiples_vanish_fancy(1, len - start - 1, size);
            assert(size * 1 + (len - start - 1) == len - start + size - 1);
        }
    }
}

/// The retry policy: a 2xx response is done; a 429 or any 5xx response is
/// sent again while fewer than five retries were made, as the next retry,
/// the first after one second and each one after twice as long as the one
/// before; every other response fails, and so does a 429 or 5xx after five
/// retries.
pub proof fn law_retry_policy(status: u16, retries: u32)
    ensures
        200 <= status <= 299 ==> step_after(status, retries) == EmbedStep::Done,
        (status == 429 || 500 <= status <= 599) && retries < 5 ==> step_after(status, retries)
            == (EmbedStep::Retry {
            retries: (retries + 1) as u32,
            backoff_ms: if retries == 0 {
                1000u64
            } else if retries == 1 {
                2000u64
            } else if retries == 2 {
                4000u64
            } else if retries == 3 {
                8000u64
            } else {
                16000u64
            },
        }),
        (status == 429 || 500 <= status <= 599) && retries >= 5 ==> step_after(status, retries)
            == EmbedStep::Fail,
        !(200 <= status <= 599) && status != 429 ==> step_after(status, retries) == EmbedStep::Fail,
        300 <= status <= 499 && status != 429 ==> step_after(status, retries) == EmbedStep::Fail,
{
    reveal_with_fuel(pow2, 6);
}

} // verus!
