//! The circular history buffer itself.
//!
//! Data lives in a block whose length is always a power of two, so a logical
//! offset `i` (a position in the endless stream of everything ever appended)
//! is stored at physical slot `i & mask`, which equals `i % capacity`.
//!
//! `next_running` is the total count of bytes ever appended: the logical
//! offset where the next byte will go. `len` is how many of the most recent
//! bytes are still readable; the oldest readable byte sits at logical offset
//! `next_running - len`.

use crate::capacity::{clamped_capacity, lemma_pow2_monotone, next_power_of_two};
use vstd::arithmetic::div_mod::{
    lemma_add_mod_noop, lemma_mod_add_multiples_vanish, lemma_small_mod,
};
use vstd::arithmetic::power2::{lemma2_to64, pow2};
use vstd::bits::lemma_usize_low_bits_mask_is_mod;
use vstd::math::{max, min};
use vstd::prelude::*;

verus! {

/// The physical storage slot that logical offset `i` occupies in a buffer of
/// the given capacity.
pub open spec fn slot(i: int, cap: int) -> int {
    i % cap
}

/// Two logical offsets less than one capacity apart occupy distinct slots.
pub proof fn lemma_slot_distinct(i: int, j: int, cap: int)
    requires
        0 <= i < j,
        j - i < cap,
    ensures
        slot(i, cap) != slot(j, cap),
{
    let d = j - i;
    lemma_add_mod_noop(i, d, cap);
    lemma_small_mod(d as nat, cap as nat);
    let r = i % cap;
    if r + d < cap {
        lemma_small_mod((r + d) as nat, cap as nat);
    } else {
        lemma_mod_add_multiples_vanish(r + d - cap, cap);
        lemma_small_mod((r + d - cap) as nat, cap as nat);
    }
}

/// Moving a logical offset one full capacity forward lands on the same slot.
pub proof fn lemma_slot_wrap(i: int, cap: int)
    requires
        0 < cap,
        0 <= i,
    ensures
        slot(i + cap, cap) == slot(i, cap),
{
    lemma_mod_add_multiples_vanish(i, cap);
}

/// A circular buffer over bytes that retains the most recent `len` of the
/// `next_running` bytes ever appended.
pub struct HistoryBuffer {
    /// Physical storage; its length is the capacity, a power of two.
    pub buf: Vec<u8>,
    /// How many of the most recent bytes are currently readable.
    pub len: usize,
    /// `capacity - 1`; maps a logical offset to its slot via bitwise AND.
    pub mask: usize,
    /// Total count of bytes ever appended; never decreases.
    pub next_running: usize,
}

impl HistoryBuffer {
    /// The length of the physical storage block.
    pub open spec fn capacity(self) -> int {
        self.buf@.len() as int
    }

    /// Structural invariant: capacity is a power of two in `[2, 2^23]`, the
    /// mask matches it, and the retained length never exceeds the capacity
    /// nor the total ever written.
    pub open spec fn wf(self) -> bool {
        &&& self.buf@.len() == self.mask as int + 1
        &&& exists|e: nat| e <= 23 && self.capacity() == pow2(e)
        &&& 2 <= self.capacity()
        &&& self.len as int <= self.capacity()
        &&& self.len <= self.next_running
    }

    /// The logical offset of the oldest byte still readable.
    pub open spec fn first_index(self) -> int {
        self.next_running - self.len
    }

    /// Whether logical offset `i` is currently readable.
    pub open spec fn readable(self, i: int) -> bool {
        self.first_index() <= i < self.next_running
    }

    /// The readable history as a sequence: element `j` is the byte at logical
    /// offset `first_index() + j`.
    pub open spec fn contents(self) -> Seq<u8> {
        Seq::new(self.len as nat, |j: int| self.buf@[slot(self.first_index() + j, self.capacity())])
    }

    /// Where a requested window `[start, start + max_len)` ends after being
    /// clipped to what has been written.
    pub open spec fn clipped_end(self, start: int, max_len: int) -> int {
        min(start + max_len, self.next_running as int)
    }

    /// Where that window begins after being clipped to what is still
    /// retained (never past its own end).
    pub open spec fn clipped_start(self, start: int, max_len: int) -> int {
        min(max(start, self.first_index()), self.clipped_end(start, max_len))
    }

    /// The bytes a range read of `[start, start + max_len)` yields: the
    /// retained history restricted to the clipped window.
    pub open spec fn read_window(self, start: int, max_len: int) -> Seq<u8> {
        if self.clipped_start(start, max_len) < self.clipped_end(start, max_len) {
            self.contents().subrange(
                self.clipped_start(start, max_len) - self.first_index(),
                self.clipped_end(start, max_len) - self.first_index(),
            )
        } else {
            Seq::<u8>::empty()
        }
    }

    /// How one append call transforms the buffer: the cursor advances by the
    /// input's length, retention saturates at capacity, and the readable
    /// history becomes the last `post.len` bytes of the old history followed
    /// by the input.
    pub open spec fn add_result(pre: Self, post: Self, data: Seq<u8>) -> bool {
        &&& post.buf@.len() == pre.buf@.len()
        &&& post.mask == pre.mask
        &&& post.next_running == pre.next_running + data.len()
        &&& post.len as int == min(pre.len + data.len(), pre.capacity())
        &&& post.contents() == (pre.contents() + data).skip(pre.len + data.len() - post.len)
    }

    /// How `clear` transforms the buffer: retention drops to zero and
    /// everything else, the physical bytes included, stays as it was.
    pub open spec fn clear_result(pre: Self, post: Self) -> bool {
        &&& post.buf == pre.buf
        &&& post.mask == pre.mask
        &&& post.next_running == pre.next_running
        &&& post.len == 0
    }

    /// How `clear_at` transforms the buffer: retention shrinks so that
    /// nothing logically before `new_start` stays readable; it never grows.
    pub open spec fn clear_at_result(pre: Self, post: Self, new_start: int) -> bool {
        &&& post.buf == pre.buf
        &&& post.mask == pre.mask
        &&& post.next_running == pre.next_running
        &&& post.len as int == min(pre.len as int, max(0, pre.next_running - new_start))
        &&& post.contents() == pre.contents().skip(pre.len - post.len)
    }

    /// Creates a buffer whose capacity is the smallest power of two at least
    /// `min_buf_size`, clamped to `[2, 2^23]`, zero-filled, with nothing yet
    /// written.
    pub fn new(min_buf_size: usize) -> (r: Self)
        ensures
            r.wf(),
            r.capacity() == clamped_capacity(min_buf_size as int),
            r.next_running == 0,
            r.len == 0,
            r.contents() == Seq::<u8>::empty(),
            forall|i: int| 0 <= i < r.capacity() ==> r.buf@[i] == 0u8,
    {
        let power_two_size = next_power_of_two(min_buf_size);
        let cap = if power_two_size < 2 {
            2
        } else if power_two_size > 0x80_0000 {
            0x80_0000
        } else {
            power_two_size
        };
        proof {
            let e = choose|e: nat| e <= 30 && power_two_size as int == pow2(e);
            assert(pow2(1) == 2 && pow2(23) == 0x80_0000 && pow2(24) == 0x100_0000) by {
                lemma2_to64();
            }
            if power_two_size < 2 {
                assert(cap == pow2(1));
            } else if power_two_size > 0x80_0000 {
                assert(cap == pow2(23));
            } else {
                assert(e <= 23) by {
                    if e > 23 {
                        lemma_pow2_monotone(24, e);
                    }
                }
                assert(cap == pow2(e));
            }
            assert(exists|e2: nat| e2 <= 23 && cap as int == pow2(e2));
            assert(cap as int == clamped_capacity(min_buf_size as int));
        }
        let mut buf: Vec<u8> = Vec::new();
        while buf.len() < cap
            invariant
                buf@.len() <= cap,
                forall|i: int| 0 <= i < buf@.len() ==> buf@[i] == 0u8,
            decreases cap - buf@.len(),
        {
            buf.push(0u8);
        }
        let r = HistoryBuffer { buf, len: 0, mask: cap - 1, next_running: 0 };
        proof {
            assert(r.contents() =~= Seq::<u8>::empty());
        }
        r
    }

    /// The slot that logical offset `i` currently occupies, computed with the
    /// power-of-two mask.
    fn mask_index(&self, i: usize) -> (r: usize)
        requires
            self.wf(),
        ensures
            r as int == slot(i as int, self.capacity()),
            r < self.buf@.len(),
    {
        proof {
            let e = choose|e: nat| e <= 23 && self.capacity() == pow2(e);
            assert(e < usize::BITS) by {
                assert(usize::BITS >= 32);
            }
            lemma_usize_low_bits_mask_is_mod(i, e);
            assert(pow2(e) <= 0x80_0000) by {
                lemma_pow2_monotone(e, 23);
                lemma2_to64();
            }
            assert(self.mask == vstd::bits::low_bits_mask(e) as usize);
            assert(i & self.mask == i % (pow2(e) as usize));
            assert((pow2(e) as usize) as int == self.capacity());
        }
        i & self.mask
    }

    /// The logical offset of the oldest byte still readable. Together with
    /// [`Self::get_len`] this walks the cursor: `get_index() + get_len()`
    /// is the total number of bytes ever appended.
    pub fn get_index(&self) -> (r: usize)
        requires
            self.wf(),
        ensures
            r as int == self.first_index(),
    {
        self.next_running - self.len
    }

    /// The logical offset of the most recently written byte still retained;
    /// collapses to the start boundary when nothing is retained, so callers
    /// must check `get_len() == 0` to tell "empty" apart from "one byte".
    pub fn get_last_index(&self) -> (r: usize)
        requires
            self.wf(),
        ensures
            r as int == if self.len > 0 {
                self.next_running - 1
            } else {
                self.first_index()
            },
    {
        if self.len > 0 {
            self.next_running - 1
        } else {
            self.next_running
        }
    }

    /// How many bytes are currently readable.
    pub fn get_len(&self) -> (r: usize)
        ensures
            r == self.len,
            r as int == self.contents().len(),
    {
        self.len
    }

    /// The byte at logical offset `index`, or `None` if that offset has been
    /// evicted or cleared, or has not been written yet.
    pub fn get(&self, index: usize) -> (r: Option<u8>)
        requires
            self.wf(),
        ensures
            r == if self.readable(index as int) {
                Some(self.contents()[index - self.first_index()])
            } else {
                None::<u8>
            },
    {
        if index >= self.next_running - self.len && index < self.next_running {
            let s = self.mask_index(index);
            Some(self.buf[s])
        } else {
            None
        }
    }

    /// The most recently written byte, or `None` if nothing is retained.
    pub fn last_byte(&self) -> (r: Option<u8>)
        requires
            self.wf(),
        ensures
            r == if self.len > 0 {
                Some(self.contents().last())
            } else {
                None::<u8>
            },
    {
        if self.len > 0 {
            let s = self.mask_index(self.next_running - 1);
            Some(self.buf[s])
        } else {
            None
        }
    }

    /// Appends `data`, overwriting the oldest retained bytes in place once
    /// the capacity is exceeded; an empty input is a no-op. When the input is
    /// longer than the capacity, only its last `capacity` bytes ever touch
    /// storage. The cursor is a fixed-width counter and may not overflow.
    pub fn add(&mut self, data: &[u8])
        requires
            old(self).wf(),
            old(self).next_running + data@.len() <= usize::MAX,
        ensures
            final(self).wf(),
            Self::add_result(*old(self), *final(self), data@),
    {
        if data.len() == 0 {
            proof {
                assert((old(self).contents() + data@).skip(0) =~= old(self).contents());
            }
            return;
        }
        let buf_size = self.buf.len();
        let n = data.len();
        self.next_running = self.next_running + n;
        let grown = self.len + n;
        self.len = if grown < buf_size {
            grown
        } else {
            buf_size
        };
        let stored = if n < buf_size {
            n
        } else {
            buf_size
        };
        let tail = n - stored;
        let start = self.next_running - stored;
        let ghost cap = self.capacity();
        let mut k: usize = 0;
        while k < stored
            invariant
                self.wf(),
                self.buf@.len() == cap,
                cap == old(self).capacity(),
                self.mask == old(self).mask,
                self.next_running as int == old(self).next_running + data@.len(),
                self.len as int == min(old(self).len + data@.len(), cap),
                n == data@.len(),
                1 <= n,
                stored as int == min(n as int, cap),
                tail == n - stored,
                start as int == self.next_running - stored,
                0 <= k <= stored,
                forall|i: int|
                    start <= i < start + k ==> #[trigger] self.buf@[slot(i, cap)] == data@[tail + (
                    i - start)],
                forall|i: int|
                    start + k <= i < start + cap ==> #[trigger] self.buf@[slot(i, cap)] == old(
                        self,
                    ).buf@[slot(i, cap)],
            decreases stored - k,
        {
            let s = self.mask_index(start + k);
            let b = data[tail + k];
            self.buf.set(s, b);
            proof {
                let i0 = start as int + k as int;
                assert forall|i: int| start <= i < start + (k + 1) implies #[trigger] self.buf@[slot(
                    i,
                    cap,
                )] == data@[tail + (i - start)] by {
                    if i < i0 {
                        lemma_slot_distinct(i, i0, cap);
                    }
                }
                assert forall|i: int| start + (k + 1) <= i < start + cap implies #[trigger] self.buf@[slot(
                    i,
                    cap,
                )] == old(self).buf@[slot(i, cap)] by {
                    lemma_slot_distinct(i0, i, cap);
                }
            }
            k = k + 1;
        }
        proof {
            let pre = *old(self);
            let excess = pre.len + data@.len() - self.len;
            let target = (pre.contents() + data@).skip(excess);
            assert forall|j: int| 0 <= j < self.len as int implies self.contents()[j] == target[j] by {
                let i = self.first_index() + j;
                if i >= start {
                    assert(self.buf@[slot(i, cap)] == data@[tail + (i - start)]);
                    assert(tail + (i - start) == excess + j - pre.len);
                } else {
                    // Untouched slot: the byte was retained before the call.
                    assert(self.buf@[slot(i + cap, cap)] == pre.buf@[slot(i + cap, cap)]);
                    lemma_slot_wrap(i, cap);
                    assert(pre.contents()[excess + j] == pre.buf@[slot(
                        pre.first_index() + (excess + j),
                        cap,
                    )]);
                    assert(pre.first_index() + (excess + j) == i);
                }
                assert(self.contents()[j] == self.buf@[slot(i, cap)]);
            }
            assert(self.contents() =~= target);
        }
    }

    /// Returns a history window along with the logical offset of its first
    /// byte: the requested range `[start_index, start_index + max_len)`
    /// clipped to what is still retained. The window can start later than
    /// requested if the low end has been evicted and can be shorter than
    /// requested if the high end has not been written yet. An empty window is
    /// paired with offset `0`, not with the clipped start.
    pub fn get_vec_and_index(&self, start_index: usize, max_len: usize) -> (r: (Vec<u8>, usize))
        requires
            self.wf(),
        ensures
            r.0@ == self.read_window(start_index as int, max_len as int),
            r.1 as int == if self.clipped_start(start_index as int, max_len as int) < self.clipped_end(
                start_index as int,
                max_len as int,
            ) {
                self.clipped_start(start_index as int, max_len as int)
            } else {
                0
            },
    {
        let first = self.next_running - self.len;
        let out = if start_index >= self.next_running {
            self.next_running
        } else if max_len >= self.next_running - start_index {
            self.next_running
        } else {
            start_index + max_len
        };
        let lo = if start_index > first {
            start_index
        } else {
            first
        };
        let inn = if lo < out {
            lo
        } else {
            out
        };
        let num = out - inn;
        let ghost cap = self.capacity();
        let mut v: Vec<u8> = Vec::new();
        let mut k: usize = 0;
        while k < num
            invariant
                self.wf(),
                cap == self.capacity(),
                v@.len() == k,
                0 <= k <= num,
                inn + num <= self.next_running,
                forall|j: int| 0 <= j < k ==> v@[j] == self.buf@[slot(inn + j, cap)],
            decreases num - k,
        {
            let s = self.mask_index(inn + k);
            let b = self.buf[s];
            v.push(b);
            k = k + 1;
        }
        if num == 0 {
            proof {
                assert(v@ =~= self.read_window(start_index as int, max_len as int));
            }
            return (v, 0);
        }
        proof {
            let s0 = start_index as int;
            let m0 = max_len as int;
            assert forall|j: int| 0 <= j < num as int implies v@[j] == self.read_window(s0, m0)[j] by {
                assert(self.read_window(s0, m0)[j] == self.contents()[inn - first + j]);
                assert(self.contents()[inn - first + j] == self.buf@[slot(
                    first as int + (inn - first + j),
                    cap,
                )]);
                assert(first as int + (inn - first + j) == inn + j);
            }
            assert(v@ =~= self.read_window(s0, m0));
        }
        (v, inn)
    }

    /// Returns the clipped history window without its offset.
    pub fn get_vec(&self, start_index: usize, max_len: usize) -> (r: Vec<u8>)
        requires
            self.wf(),
        ensures
            r@ == self.read_window(start_index as int, max_len as int),
    {
        let (v, _start_idx) = self.get_vec_and_index(start_index, max_len);
        v
    }

    /// The most recent bytes, up to `max_len` of them.
    pub fn get_recent(&self, max_len: usize) -> (r: Vec<u8>)
        requires
            self.wf(),
        ensures
            r@ == self.contents().skip(self.len - min(max_len as int, self.len as int)),
    {
        let len = if max_len < self.len {
            max_len
        } else {
            self.len
        };
        let start = self.next_running - len;
        let (v, _start_index) = self.get_vec_and_index(start, len);
        proof {
            assert(v@ =~= self.contents().skip(self.len - min(max_len as int, self.len as int)));
        }
        v
    }

    /// Forgets all history: the retained length drops to zero. The physical
    /// bytes stay in place but are no longer reachable through reads.
    pub fn clear(&mut self)
        ensures
            Self::clear_result(*old(self), *final(self)),
            old(self).wf() ==> final(self).wf(),
    {
        self.len = 0;
    }

    /// Forgets all history logically before `new_start_index`: the retained
    /// length shrinks to `next_running - new_start_index` if that is smaller,
    /// and never grows. A `new_start_index` at or before the oldest readable
    /// offset is a no-op, not an error.
    pub fn clear_at(&mut self, new_start_index: usize)
        requires
            old(self).wf(),
        ensures
            final(self).wf(),
            Self::clear_at_result(*old(self), *final(self), new_start_index as int),
    {
        let avail = if new_start_index >= self.next_running {
            0
        } else {
            self.next_running - new_start_index
        };
        if avail < self.len {
            self.len = avail;
        }
        proof {
            assert(final(self).contents() =~= old(self).contents().skip(
                old(self).len - final(self).len,
            ));
        }
    }
}

} // verus!
