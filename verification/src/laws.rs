//! Laws that relate the buffer's operations to one another, proved from the
//! operations' contracts alone.

use crate::buffer::HistoryBuffer;
use crate::capacity::{
    clamped_capacity, lemma_next_pow2_bounds, lemma_next_pow2_minimal, next_pow2,
};
use vstd::arithmetic::power2::{lemma2_to64, pow2};
use vstd::prelude::*;

verus! {

/// Capacity normalization: for any requested minimum size up to the `2^23`
/// ceiling, the constructed capacity is a power of two, at least 2, at least
/// the request, and the smallest such power of two; above the ceiling the
/// capacity is the ceiling itself.
pub proof fn lemma_capacity_normalization(min_capacity: int)
    requires
        0 <= min_capacity,
    ensures
        exists|e: nat| clamped_capacity(min_capacity) == pow2(e),
        clamped_capacity(min_capacity) >= 2,
        min_capacity <= 0x80_0000 ==> clamped_capacity(min_capacity) >= min_capacity,
        min_capacity <= 0x80_0000 ==> forall|e: nat|
            pow2(e) >= min_capacity && pow2(e) >= 2 ==> pow2(e) >= clamped_capacity(min_capacity),
        min_capacity > 0x80_0000 ==> clamped_capacity(min_capacity) == 0x80_0000,
{
    assert(pow2(1) == 2 && pow2(23) == 0x80_0000) by {
        lemma2_to64();
    }
    if min_capacity <= 1 {
        assert(next_pow2(min_capacity) == 1);
        assert(clamped_capacity(min_capacity) == pow2(1));
    } else {
        lemma_next_pow2_bounds(min_capacity);
        let q = next_pow2(min_capacity);
        if min_capacity <= 0x80_0000 {
            assert(q <= 0x80_0000) by {
                lemma_next_pow2_minimal(min_capacity, 0x80_0000);
            }
            assert(clamped_capacity(min_capacity) == q);
            assert forall|e: nat|
                pow2(e) >= min_capacity && pow2(e) >= 2 implies pow2(e) >= clamped_capacity(
                min_capacity,
            ) by {
                lemma_next_pow2_minimal(min_capacity, pow2(e) as int);
            }
        } else {
            assert(q >= min_capacity > 0x80_0000);
            assert(clamped_capacity(min_capacity) == pow2(23));
        }
    }
}

/// Cursor/length invariant: in any well-formed buffer — and every operation
/// keeps the buffer well-formed — the oldest readable offset plus the
/// retained length equals the total ever written, and the retained length
/// never exceeds the capacity.
pub proof fn lemma_cursor_length_invariant(b: HistoryBuffer)
    requires
        b.wf(),
    ensures
        b.first_index() + b.contents().len() == b.next_running,
        b.contents().len() <= b.capacity(),
        0 <= b.first_index(),
{
}

/// Write-then-read: after one append whose written range has not been
/// evicted within the same call (the input fits the capacity), reading back
/// from the cursor position before the append returns exactly the input.
pub proof fn lemma_write_then_read(pre: HistoryBuffer, post: HistoryBuffer, data: Seq<u8>)
    requires
        pre.wf(),
        post.wf(),
        HistoryBuffer::add_result(pre, post, data),
        data.len() <= pre.capacity(),
    ensures
        post.read_window(pre.next_running as int, data.len() as int) == data,
{
    let n = data.len() as int;
    let window = post.read_window(pre.next_running as int, n);
    if n == 0 {
        assert(window =~= data);
    } else {
        let first = post.first_index();
        let excess = pre.len + n - post.len;
        assert(post.clipped_end(pre.next_running as int, n) == post.next_running);
        assert(post.clipped_start(pre.next_running as int, n) == pre.next_running);
        assert forall|j: int| 0 <= j < n implies window[j] == data[j] by {
            assert(window[j] == post.contents()[pre.next_running - first + j]);
            assert(post.contents()[pre.next_running - first + j] == (pre.contents()
                + data)[excess + (pre.next_running - first + j)]);
            assert(excess + (pre.next_running - first) == pre.len as int);
        }
        assert(window =~= data);
    }
}

/// Clip correctness: a range read never yields more than `max_len` bytes,
/// yields only bytes of the retained history `[first_index, next_running)`,
/// and when non-empty starts exactly at the clipped start offset.
pub proof fn lemma_clip_bounds(b: HistoryBuffer, start: int, max_len: int)
    requires
        b.wf(),
        0 <= start,
        0 <= max_len,
    ensures
        b.read_window(start, max_len).len() <= max_len,
        b.read_window(start, max_len).len() > 0 ==> {
            let cs = b.clipped_start(start, max_len);
            &&& start <= cs
            &&& b.first_index() <= cs
            &&& cs + b.read_window(start, max_len).len() <= b.next_running
            &&& forall|j: int|
                0 <= j < b.read_window(start, max_len).len() ==> b.read_window(start, max_len)[j]
                    == b.contents()[cs - b.first_index() + j]
        },
{
}

/// Idempotence of `clear`: clearing twice in a row leaves the buffer exactly
/// as one clear does, with nothing retained.
pub proof fn lemma_clear_idempotent(
    pre: HistoryBuffer,
    once: HistoryBuffer,
    twice: HistoryBuffer,
)
    requires
        HistoryBuffer::clear_result(pre, once),
        HistoryBuffer::clear_result(once, twice),
    ensures
        twice == once,
        once.len == 0,
        once.contents() == Seq::<u8>::empty(),
{
    assert(once.contents() =~= Seq::<u8>::empty());
}

/// Monotonicity of `clear_at`: whatever offset is given, the retained length
/// never grows.
pub proof fn lemma_clear_at_monotonic(pre: HistoryBuffer, post: HistoryBuffer, new_start: int)
    requires
        HistoryBuffer::clear_at_result(pre, post, new_start),
    ensures
        post.len <= pre.len,
        post.next_running == pre.next_running,
{
}

} // verus!
