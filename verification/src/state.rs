//! The ring's storage and counters, and the two transactional operations that
//! everything else is built on.
//!
//! A `RingState` owns the byte storage and the two absolute counters. The
//! consumer-side operation hands a caller-supplied function read-only views of
//! the filled region and, on success, advances `read` by exactly the number of
//! bytes the function reports; the producer-side operation hands out mutable
//! views of the empty region and advances `write` likewise. An error from the
//! function leaves the counters untouched, so an aborted operation commits
//! nothing.

use crate::ranges::{
    counters_wf, empty_ranges, filled_ranges, spec_empty_ranges, spec_filled_ranges,
};
use vstd::arithmetic::div_mod::{
    lemma_add_mod_noop, lemma_mod_bound, lemma_mod_multiples_vanish, lemma_small_mod,
};
use vstd::prelude::*;

verus! {

/// Storage offset of the byte `i` places past the absolute counter `c`, in a
/// storage of `b` bytes: `(c + i) % b`, written without the remainder.
pub proof fn lemma_counter_offset(b: int, c: int, i: int)
    requires
        b >= 1,
        c >= 0,
        0 <= i < b,
    ensures
        (c + i) % b == if c % b + i < b {
            c % b + i
        } else {
            c % b + i - b
        },
{
    lemma_mod_bound(c, b);
    lemma_add_mod_noop(c, i, b);
    lemma_small_mod(i as nat, b as nat);
    let cs = c % b;
    if cs + i < b {
        lemma_small_mod((cs + i) as nat, b as nat);
    } else {
        lemma_mod_multiples_vanish(-1, cs + i, b);
        lemma_small_mod((cs + i - b) as nat, b as nat);
    }
}

/// The ring's storage and counters. `read` and `write` are the absolute
/// counts of bytes consumed and produced since construction; they never wrap.
/// `mask` converts an absolute counter to a storage offset by bitwise and.
pub struct RingState {
    /// The byte storage; its length is the capacity.
    pub data: Vec<u8>,
    /// The capacity minus one; the capacity is a power of two.
    pub mask: usize,
    /// Absolute count of bytes consumed.
    pub read: usize,
    /// Absolute count of bytes produced.
    pub write: usize,
}

impl RingState {
    /// Total storage capacity in bytes.
    pub open spec fn capacity(self) -> int {
        self.data.len() as int
    }

    /// Bytes produced and not yet consumed.
    pub open spec fn occupied(self) -> int {
        self.write - self.read
    }

    /// Well-formedness: a power-of-two capacity matching the mask, and
    /// counters with `read <= write <= read + capacity`.
    pub open spec fn wf(self) -> bool {
        counters_wf(self.capacity(), self.mask as int, self.read as int, self.write as int)
    }

    /// The bytes of the filled region, oldest first.
    pub open spec fn filled(self) -> Seq<u8> {
        Seq::new(
            self.occupied() as nat,
            |i: int| self.data[(self.read + i) % self.capacity()],
        )
    }

    /// The number of bytes offered to the producer: the unoccupied capacity,
    /// except when the write counter is too near its maximum to represent the
    /// advance, in which case nothing is offered.
    pub open spec fn producer_offer(self) -> int {
        if self.write + (self.capacity() - self.occupied()) <= usize::MAX {
            self.capacity() - self.occupied()
        } else {
            0
        }
    }

    /// The lengths of the two views handed to the consumer: the filled region
    /// split where it wraps around the end of storage.
    pub open spec fn filled_seg_lens(self) -> (int, int) {
        let p = spec_filled_ranges(self.capacity(), self.read as int, self.write as int);
        (p.0.1 - p.0.0, p.1.1 - p.1.0)
    }

    /// The lengths of the two views handed to the producer: the empty region
    /// split where it wraps around the end of storage, or two empty views when
    /// nothing is offered.
    pub open spec fn empty_seg_lens(self) -> (int, int) {
        if self.producer_offer() == self.capacity() - self.occupied() {
            let p = spec_empty_ranges(self.capacity(), self.read as int, self.write as int);
            (p.0.1 - p.0.0, p.1.1 - p.1.0)
        } else {
            (0, 0)
        }
    }

    /// Consumer-side primitive. Computes the filled region, hands `f` two
    /// read-only views of it (second view empty unless the region wraps) plus
    /// their total length, and on `Ok(n)` advances `read` by exactly `n`. An
    /// error from `f` is passed through unchanged and commits nothing. The
    /// filled region is never empty-checked first: `f` is called even when
    /// both views are empty.
    pub fn consume_with<E, F: FnOnce(&[u8], &[u8], usize) -> Result<usize, E>>(
        &mut self,
        f: F,
    ) -> (r: Result<usize, E>)
        requires
            old(self).wf(),
            forall|a: &[u8], b: &[u8], l: usize|
                a@ == old(self).filled().take(old(self).filled_seg_lens().0) && b@ == old(
                    self,
                ).filled().skip(old(self).filled_seg_lens().0) && l == old(self).filled().len()
                    ==> call_requires(f, (a, b, l)),
            forall|a: &[u8], b: &[u8], l: usize, res: Result<usize, E>|
                #[trigger] call_ensures(f, (a, b, l), res) ==> (res matches Ok(n) ==> n <= l),
        ensures
            final(self).wf(),
            final(self).mask == old(self).mask,
            final(self).write == old(self).write,
            final(self).data == old(self).data,
            (r matches Err(_) ==> *final(self) == *old(self)),
            (r matches Ok(n) ==> {
                &&& n <= old(self).filled().len()
                &&& final(self).read == old(self).read + n
                &&& final(self).filled() == old(self).filled().skip(n as int)
                &&& (n == 0 ==> *final(self) == *old(self))
            }),
            exists|a: &[u8], b: &[u8], l: usize|
                {
                    &&& #[trigger] call_ensures(f, (a, b, l), r)
                    &&& a@ == old(self).filled().take(old(self).filled_seg_lens().0)
                    &&& b@ == old(self).filled().skip(old(self).filled_seg_lens().0)
                    &&& l == old(self).filled().len()
                },
    {
        let buflen = self.data.len();
        let (ranges, len) = filled_ranges(buflen, self.mask, self.read, self.write);
        let ghost fl = self.filled();
        let s = self.data.as_slice();
        let (left, right) = s.split_at(ranges[0].start);
        let (seg0, _tail) = right.split_at(ranges[0].end - ranges[0].start);
        let (seg1, _mid) = left.split_at(ranges[1].end);
        proof {
            let p = spec_filled_ranges(buflen as int, self.read as int, self.write as int);
            assert(seg0@ =~= self.data@.subrange(p.0.0, p.0.1));
            assert(seg1@ =~= self.data@.subrange(p.1.0, p.1.1));
            lemma_view_is_filled(*self, seg0@, seg1@);
            assert(seg0@ =~= fl.take(self.filled_seg_lens().0));
            assert(seg1@ =~= fl.skip(self.filled_seg_lens().0));
        }
        let r = f(seg0, seg1, len);
        match r {
            Ok(n) => {
                self.read = self.read + n;
                proof {
                    assert(self.filled() =~= fl.skip(n as int)) by {
                        assert forall|i: int| 0 <= i < self.occupied() implies self.filled()[i]
                            == fl.skip(n as int)[i] by {
                            lemma_counter_offset(self.capacity(), old(self).read as int, n + i);
                            lemma_counter_offset(self.capacity(), self.read as int, i);
                        }
                    }
                }
                Ok(n)
            },
            Err(e) => Err(e),
        }
    }

    /// Appends the oldest `min(max, occupied)` filled bytes to `dst` and
    /// releases them: the computing half of reading from the ring into a byte
    /// buffer.
    #[verifier::rlimit(100)]
    #[verifier::spinoff_prover]
    pub fn pop_bytes(&mut self, dst: &mut Vec<u8>, max: usize) -> (n: usize)
        requires
            old(self).wf(),
        ensures
            final(self).wf(),
            final(self).mask == old(self).mask,
            final(self).write == old(self).write,
            final(self).data == old(self).data,
            n == if max as int <= old(self).filled().len() {
                max as int
            } else {
                old(self).filled().len() as int
            },
            final(self).read == old(self).read + n,
            final(self).filled() == old(self).filled().skip(n as int),
            final(dst)@ == old(dst)@ + old(self).filled().take(n as int),
    {
        let buflen = self.data.len();
        let (ranges, len) = filled_ranges(buflen, self.mask, self.read, self.write);
        let ghost fl = self.filled();
        let n = if max < len {
            max
        } else {
            len
        };
        let s = self.data.as_slice();
        let (left, right) = s.split_at(ranges[0].start);
        let (seg0, _tail) = right.split_at(ranges[0].end - ranges[0].start);
        let (seg1, _mid) = left.split_at(ranges[1].end);
        proof {
            let p = spec_filled_ranges(buflen as int, self.read as int, self.write as int);
            assert(seg0@ =~= self.data@.subrange(p.0.0, p.0.1));
            assert(seg1@ =~= self.data@.subrange(p.1.0, p.1.1));
            lemma_view_is_filled(*self, seg0@, seg1@);
        }
        let k1 = if n < seg0.len() {
            n
        } else {
            seg0.len()
        };
        append_from(dst, seg0, k1);
        append_from(dst, seg1, n - k1);
        self.read = self.read + n;
        proof {
            assert(final(dst)@ =~= old(dst)@ + fl.take(n as int));
            assert(self.filled() =~= fl.skip(n as int)) by {
                assert forall|i: int| 0 <= i < self.occupied() implies self.filled()[i] == fl.skip(
                    n as int,
                )[i] by {
                    lemma_counter_offset(self.capacity(), old(self).read as int, n + i);
                    lemma_counter_offset(self.capacity(), self.read as int, i);
                }
            }
        }
        n
    }

    /// Copies the longest prefix of `src` that fits into the empty region and
    /// publishes it: the computing half of writing a byte slice into the
    /// ring. The bytes enter the filled region behind what is already there.
    #[verifier::rlimit(100)]
    #[verifier::spinoff_prover]
    pub fn push_bytes(&mut self, src: &[u8]) -> (n: usize)
        requires
            old(self).wf(),
        ensures
            final(self).wf(),
            final(self).mask == old(self).mask,
            final(self).read == old(self).read,
            final(self).data@.len() == old(self).data@.len(),
            n == if src@.len() <= old(self).producer_offer() {
                src@.len() as int
            } else {
                old(self).producer_offer()
            },
            final(self).write == old(self).write + n,
            final(self).filled() == old(self).filled() + src@.take(n as int),
    {
        let buflen = self.data.len();
        let occupied = self.write - self.read;
        let avail = buflen - occupied;
        let ghost fl = self.filled();
        if usize::MAX - self.write < avail {
            // The absolute counter could not represent a full advance; publish
            // nothing rather than overflow.
            proof {
                assert(self.filled() =~= fl + src@.take(0));
            }
            0
        } else {
            let (ranges, len) = empty_ranges(buflen, self.mask, self.read, self.write);
            let ghost p = spec_empty_ranges(
                buflen as int,
                old(self).read as int,
                old(self).write as int,
            );
            let n = if src.len() < len {
                src.len()
            } else {
                len
            };
            let s = self.data.as_mut_slice();
            let (left, right) = s.split_at_mut(ranges[0].start);
            let (seg0, _tail) = right.split_at_mut(ranges[0].end - ranges[0].start);
            let (seg1, _mid) = left.split_at_mut(ranges[1].end);
            let k1 = if n < seg0.len() {
                n
            } else {
                seg0.len()
            };
            copy_into(seg0, src, k1);
            let (_, src_rest) = src.split_at(k1);
            copy_into(seg1, src_rest, n - k1);
            let ghost written = seg0@ + seg1@;
            self.write = self.write + n;
            proof {
                lemma_produce_commit(*old(self), *self, p, written, n as int);
                assert(written.take(n as int) =~= src@.take(n as int));
                assert(self.filled() =~= fl + src@.take(n as int));
            }
            n
        }
    }

    /// Producer-side primitive. Computes the empty region, hands `f` two
    /// mutable views of it (second view empty unless the region wraps) plus
    /// their total length, and on `Ok(n)` advances `write` by exactly `n`,
    /// publishing the first `n` bytes left in the views. An error from `f` is
    /// passed through unchanged and commits nothing; the filled region is
    /// never touched. The empty region is not checked first: `f` is called
    /// even when both views are empty. When the write counter is too near its
    /// maximum to represent a full advance, nothing is offered.
    #[verifier::rlimit(100)]
    #[verifier::spinoff_prover]
    pub fn produce_with<E, F: FnOnce(&mut [u8], &mut [u8], usize) -> Result<usize, E>>(
        &mut self,
        f: F,
    ) -> (r: Result<usize, E>)
        requires
            old(self).wf(),
            forall|a: &mut [u8], b: &mut [u8], l: usize|
                (*a)@.len() == old(self).empty_seg_lens().0 && (*b)@.len() == old(
                    self,
                ).empty_seg_lens().1 && l == old(self).producer_offer()
                    ==> call_requires(f, (a, b, l)),
            forall|a: &mut [u8], b: &mut [u8], l: usize, res: Result<usize, E>|
                #[trigger] call_ensures(f, (a, b, l), res) ==> {
                    &&& (res matches Ok(n) ==> n <= l)
                    &&& (*final(a))@.len() == (*a)@.len()
                    &&& (*final(b))@.len() == (*b)@.len()
                },
        ensures
            final(self).wf(),
            final(self).mask == old(self).mask,
            final(self).read == old(self).read,
            final(self).data@.len() == old(self).data@.len(),
            (r matches Err(_) ==> final(self).write == old(self).write && final(self).filled()
                == old(self).filled()),
            (r matches Ok(n) ==> {
                &&& n <= old(self).producer_offer()
                &&& final(self).write == old(self).write + n
                &&& final(self).filled().take(old(self).filled().len() as int) == old(
                    self,
                ).filled()
            }),
            exists|a: &mut [u8], b: &mut [u8], l: usize|
                {
                    &&& #[trigger] call_ensures(f, (a, b, l), r)
                    &&& l == old(self).producer_offer()
                    &&& (*a)@.len() == old(self).empty_seg_lens().0
                    &&& (*b)@.len() == old(self).empty_seg_lens().1
                    &&& (r matches Ok(n) ==> final(self).filled() == old(self).filled() + ((*final(a))@
                        + (*final(b))@).take(n as int))
                },
    {
        let buflen = self.data.len();
        let occupied = self.write - self.read;
        let avail = buflen - occupied;
        let ghost fl = self.filled();
        if usize::MAX - self.write < avail {
            // The absolute counter could not represent a full advance; offer
            // nothing rather than overflow. Unreachable until the counter
            // nears its maximum.
            let s = self.data.as_mut_slice();
            let (seg0, rest) = s.split_at_mut(0);
            let (seg1, _rest) = rest.split_at_mut(0);
            let r = f(seg0, seg1, 0);
            proof {
                assert(self.data@ =~= old(self).data@);
                assert(self.filled() =~= fl);
            }
            r
        } else {
            let (ranges, len) = empty_ranges(buflen, self.mask, self.read, self.write);
            let ghost p = spec_empty_ranges(
                buflen as int,
                old(self).read as int,
                old(self).write as int,
            );
            let s = self.data.as_mut_slice();
            let (left, right) = s.split_at_mut(ranges[0].start);
            let (seg0, _tail) = right.split_at_mut(ranges[0].end - ranges[0].start);
            let (seg1, _mid) = left.split_at_mut(ranges[1].end);
            let r = f(seg0, seg1, len);
            let ghost written = seg0@ + seg1@;
            match r {
                Ok(n) => {
                    self.write = self.write + n;
                    proof {
                        lemma_produce_commit(*old(self), *self, p, written, n as int);
                    }
                    Ok(n)
                },
                Err(e) => {
                    proof {
                        lemma_produce_commit(*old(self), *self, p, written, 0);
                        assert(self.filled() =~= fl);
                    }
                    Err(e)
                },
            }
        }
    }
}

/// After the producer's function returns, the storage differs from the old
/// storage only inside the empty region, where it now holds `written`; the
/// counters place the filled bytes outside that region, so the filled view is
/// the old one followed by a prefix of `written`.
proof fn lemma_produce_commit(
    pre: RingState,
    post: RingState,
    p: ((int, int), (int, int)),
    written: Seq<u8>,
    n: int,
)
    requires
        pre.wf(),
        p == spec_empty_ranges(pre.capacity(), pre.read as int, pre.write as int),
        post.mask == pre.mask,
        post.read == pre.read,
        post.write == pre.write + n,
        0 <= n <= pre.capacity() - pre.occupied(),
        written.len() == (p.0.1 - p.0.0) + (p.1.1 - p.1.0),
        post.data@.len() == pre.capacity(),
        forall|o: int|
            p.0.0 <= o < p.0.1 ==> post.data@[o] == written[o - p.0.0],
        forall|o: int|
            p.1.0 <= o < p.1.1 ==> post.data@[o] == written[p.0.1 - p.0.0 + o],
        forall|o: int|
            0 <= o < pre.capacity() && !(p.0.0 <= o < p.0.1) && !(p.1.0 <= o < p.1.1)
                ==> post.data@[o] == pre.data@[o],
    ensures
        post.wf(),
        post.filled() =~= pre.filled() + written.take(n),
{
    let b = pre.capacity();
    lemma_mod_bound(pre.read as int, b);
    lemma_mod_bound(pre.write as int, b);
    let rs = pre.read as int % b;
    let ws = pre.write as int % b;
    let occ = pre.occupied();
    let avail = b - occ;
    assert forall|i: int| 0 <= i < occ + n implies post.filled()[i] == (pre.filled()
        + written.take(n))[i] by {
        lemma_counter_offset(b, pre.read as int, i);
        if i < occ {
            if occ < b {
                lemma_counter_offset(b, pre.read as int, occ);
                assert((pre.read + occ) % b == ws);
            }
        } else {
            lemma_counter_offset(b, pre.write as int, i - occ);
            assert((pre.read + i) % b == (pre.write + (i - occ)) % b);
        }
    }
}

/// Appends `src[..k]` to the end of `dst`.
fn append_from(dst: &mut Vec<u8>, src: &[u8], k: usize)
    requires
        k <= src@.len(),
    ensures
        final(dst)@ == old(dst)@ + src@.take(k as int),
{
    let mut i: usize = 0;
    while i < k
        invariant
            i <= k,
            k <= src@.len(),
            dst@ == old(dst)@ + src@.take(i as int),
        decreases k - i,
    {
        dst.push(src[i]);
        proof {
            assert(dst@ =~= old(dst)@ + src@.take(i + 1));
        }
        i = i + 1;
    }
}

/// Copies `src[..k]` over the front of `dst`, leaving the rest of `dst` as it
/// was.
fn copy_into(dst: &mut [u8], src: &[u8], k: usize)
    requires
        k <= src@.len(),
        k <= old(dst)@.len(),
    ensures
        final(dst)@ == src@.take(k as int) + old(dst)@.skip(k as int),
{
    let mut i: usize = 0;
    while i < k
        invariant
            i <= k,
            k <= src@.len(),
            dst@.len() == old(dst)@.len(),
            k <= dst@.len(),
            dst@ == src@.take(i as int) + old(dst)@.skip(i as int),
        decreases k - i,
    {
        dst[i] = src[i];
        proof {
            assert(dst@ =~= src@.take(i + 1) + old(dst)@.skip(i + 1));
        }
        i = i + 1;
    }
    proof {
        assert(dst@ =~= src@.take(k as int) + old(dst)@.skip(k as int));
    }
}

/// Law: in every well-formed state the occupancy is bounded. The count of
/// bytes produced never falls behind the count consumed, and never runs more
/// than one capacity ahead of it. Both operations preserve well-formedness,
/// so this holds at every observation.
pub proof fn lemma_bounded_occupancy(s: RingState)
    requires
        s.wf(),
    ensures
        0 <= s.occupied() <= s.capacity(),
{
}

/// Law: progress is always offered. The consumer is handed exactly the
/// outstanding bytes, so it can read whenever the buffer is not empty; the
/// producer is handed the whole unoccupied capacity (as long as the absolute
/// counter can still represent the advance), so it can write whenever the
/// buffer is not full. A producer that writes whenever room is offered and a
/// consumer that reads whenever bytes are offered therefore drain any finite
/// stream between them.
pub proof fn lemma_progress(s: RingState)
    requires
        s.wf(),
    ensures
        s.filled().len() == s.occupied(),
        s.occupied() > 0 ==> s.filled().len() > 0,
        s.occupied() < s.capacity() && s.write + (s.capacity() - s.occupied()) <= usize::MAX
            ==> s.producer_offer() > 0,
{
}

/// Law: an aborted or empty operation is transactional. Whenever the counters
/// and the capacity of a later state match an earlier one, both region
/// computations hand out the very same pair of ranges again, so the next call
/// starts from the identical view pair.
pub proof fn lemma_transactional_views(pre: RingState, post: RingState)
    requires
        post.capacity() == pre.capacity(),
        post.read == pre.read,
        post.write == pre.write,
    ensures
        spec_filled_ranges(post.capacity(), post.read as int, post.write as int)
            == spec_filled_ranges(pre.capacity(), pre.read as int, pre.write as int),
        spec_empty_ranges(post.capacity(), post.read as int, post.write as int)
            == spec_empty_ranges(pre.capacity(), pre.read as int, pre.write as int),
{
}

/// The two views handed to a consumer hold exactly the filled bytes, oldest
/// first.
proof fn lemma_view_is_filled(s: RingState, seg0: Seq<u8>, seg1: Seq<u8>)
    requires
        s.wf(),
        ({
            let p = spec_filled_ranges(s.capacity(), s.read as int, s.write as int);
            &&& seg0 == s.data@.subrange(p.0.0, p.0.1)
            &&& seg1 == s.data@.subrange(p.1.0, p.1.1)
        }),
    ensures
        seg0 + seg1 == s.filled(),
{
    let b = s.capacity();
    lemma_mod_bound(s.read as int, b);
    assert(seg0 + seg1 =~= s.filled()) by {
        assert forall|i: int| 0 <= i < s.occupied() implies (seg0 + seg1)[i] == s.filled()[i] by {
            lemma_counter_offset(b, s.read as int, i);
        }
    }
}

} // verus!
