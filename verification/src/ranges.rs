//! Segment arithmetic for the ring buffer.
//!
//! The ring stores bytes in a power-of-two sized storage region and tracks two
//! absolute (never wrapped) counters, `read` and `write`. The functions here
//! map `(capacity, mask, read, write)` to a pair of half-open storage ranges:
//! the filled region (bytes produced and not yet consumed) or the empty region
//! (its complement). Wrapping around the end of storage happens only here, so
//! each function returns up to two contiguous ranges plus their total length.

use core::ops::Range;
use vstd::arithmetic::div_mod::{lemma_add_mod_noop, lemma_mod_bound, lemma_mod_multiples_vanish, lemma_mod_self_0, lemma_small_mod};
use vstd::arithmetic::power::pow;
use vstd::arithmetic::power2::{is_pow2, is_pow2_equiv, lemma_pow2_strictly_increases, pow2};
use vstd::bits::lemma_usize_low_bits_mask_is_mod;
use vstd::layout::unsigned_int_max_values;
use vstd::prelude::*;

verus! {

/// The pair of half-open ranges `((s0, e0), (s1, e1))` that covers `len` bytes
/// starting at offset `start`, wrapping at `buflen`. The first range never
/// crosses the end of storage; the second starts at offset zero and is empty
/// unless the region wraps.
pub open spec fn spec_seg_pair(buflen: int, start: int, len: int) -> ((int, int), (int, int)) {
    if start + len <= buflen {
        ((start, start + len), (0, 0))
    } else {
        ((start, buflen), (0, start + len - buflen))
    }
}

/// The filled region: `write - read` bytes starting at offset `read % buflen`.
pub open spec fn spec_filled_ranges(buflen: int, read: int, write: int) -> (
    (int, int),
    (int, int),
) {
    spec_seg_pair(buflen, read % buflen, write - read)
}

/// The empty region: `buflen - (write - read)` bytes starting at offset
/// `write % buflen`.
pub open spec fn spec_empty_ranges(buflen: int, read: int, write: int) -> (
    (int, int),
    (int, int),
) {
    spec_seg_pair(buflen, write % buflen, buflen - (write - read))
}

/// An exec range pair matches its mathematical counterpart.
pub open spec fn ranges_match(r: [Range<usize>; 2], p: ((int, int), (int, int))) -> bool {
    &&& r[0].start == p.0.0
    &&& r[0].end == p.0.1
    &&& r[1].start == p.1.0
    &&& r[1].end == p.1.1
}

/// The arguments accepted by the range computations: a power-of-two capacity
/// with its bit mask, and counters with at most `buflen` bytes outstanding.
pub open spec fn counters_wf(buflen: int, mask: int, read: int, write: int) -> bool {
    &&& is_pow2(buflen)
    &&& mask == buflen - 1
    &&& 0 <= read <= write
    &&& write - read <= buflen
}

/// A power of two is positive and and-ing with its mask is the remainder.
proof fn lemma_mask_is_mod(x: usize, b: usize)
    requires
        is_pow2(b as int),
    ensures
        b >= 1,
        x & ((b - 1) as usize) == x % b,
        x % b < b,
{
    is_pow2_equiv(b as int);
    let k = choose|i: nat| pow(2, i) == b;
    assert(pow2(k) == b);
    unsigned_int_max_values();
    if k >= usize::BITS {
        if k > usize::BITS {
            lemma_pow2_strictly_increases(usize::BITS as nat, k);
        }
        assert(false);
    }
    vstd::arithmetic::power2::lemma_pow2_pos(k);
    lemma_usize_low_bits_mask_is_mod(x, k);
    lemma_mod_bound(x as int, b as int);
}

/// The set of storage offsets covered by a range pair.
pub open spec fn covered(p: ((int, int), (int, int))) -> Set<int> {
    Set::new(|i: int| (p.0.0 <= i < p.0.1) || (p.1.0 <= i < p.1.1))
}

/// Law: the two filled sub-ranges together hold exactly `write - read` bytes.
pub proof fn lemma_filled_ranges_len_sum(buflen: int, mask: int, read: int, write: int)
    requires
        counters_wf(buflen, mask, read, write),
    ensures
        ({
            let p = spec_filled_ranges(buflen, read, write);
            (p.0.1 - p.0.0) + (p.1.1 - p.1.0) == write - read
        }),
{
    lemma_pow2_positive(buflen);
    lemma_mod_bound(read, buflen);
}

/// Law: the two empty sub-ranges together hold exactly the unoccupied
/// capacity, `buflen - (write - read)`.
pub proof fn lemma_empty_ranges_len_sum(buflen: int, mask: int, read: int, write: int)
    requires
        counters_wf(buflen, mask, read, write),
    ensures
        ({
            let p = spec_empty_ranges(buflen, read, write);
            (p.0.1 - p.0.0) + (p.1.1 - p.1.0) == buflen - (write - read)
        }),
{
    lemma_pow2_positive(buflen);
    lemma_mod_bound(write, buflen);
}

/// Law: the filled and empty regions are disjoint and together cover the whole
/// storage, `[0, buflen)`, exactly.
pub proof fn lemma_filled_empty_partition(buflen: int, mask: int, read: int, write: int)
    requires
        counters_wf(buflen, mask, read, write),
    ensures
        covered(spec_filled_ranges(buflen, read, write)).disjoint(
            covered(spec_empty_ranges(buflen, read, write)),
        ),
        covered(spec_filled_ranges(buflen, read, write)) + covered(
            spec_empty_ranges(buflen, read, write),
        ) =~= Set::new(|i: int| 0 <= i < buflen),
{
    lemma_pow2_positive(buflen);
    lemma_mod_bound(read, buflen);
    lemma_mod_bound(write, buflen);
    let rs = read % buflen;
    let occ = write - read;
    lemma_add_mod_noop(read, occ, buflen);
    if occ < buflen {
        lemma_small_mod(occ as nat, buflen as nat);
    } else {
        lemma_mod_self_0(buflen);
    }
    if rs + (occ % buflen) < buflen {
        lemma_small_mod((rs + occ % buflen) as nat, buflen as nat);
    } else {
        lemma_mod_multiples_vanish(-1, rs + occ % buflen, buflen);
        lemma_small_mod((rs + occ % buflen - buflen) as nat, buflen as nat);
    }
    assert(write % buflen == if rs + occ < buflen {
        rs + occ
    } else if rs + occ < 2 * buflen {
        rs + occ - buflen
    } else {
        rs
    });
}

/// Law: the first sub-range never crosses the end of storage, and the second
/// sub-range is empty exactly when the region fits without wrapping, that is
/// when `start + len <= buflen`.
pub proof fn lemma_wrap_shape(buflen: int, start: int, len: int)
    requires
        buflen >= 1,
        0 <= start < buflen,
        0 <= len <= buflen,
    ensures
        ({
            let p = spec_seg_pair(buflen, start, len);
            &&& 0 <= p.0.0 <= p.0.1 <= buflen
            &&& p.1.0 == 0
            &&& 0 <= p.1.1 <= p.0.0
            &&& (p.1.1 > 0 <==> start + len > buflen)
        }),
{
}

/// A power of two is positive.
pub proof fn lemma_pow2_positive(b: int)
    requires
        is_pow2(b),
    ensures
        b >= 1,
{
    is_pow2_equiv(b);
    let k = choose|i: nat| pow(2, i) == b;
    vstd::arithmetic::power::lemma_pow_positive(2, k);
}

/// Length of a half-open range.
pub fn range_len(r: &Range<usize>) -> (n: usize)
    requires
        r.start <= r.end,
    ensures
        n == r.end - r.start,
{
    r.end - r.start
}

/// Computes the filled region for a consumer: `write - read` bytes starting at
/// storage offset `read & mask`, split into at most two contiguous ranges.
/// The total length of the two ranges is returned alongside them.
pub fn filled_ranges(buflen: usize, mask: usize, read: usize, write: usize) -> (r: (
    [Range<usize>; 2],
    usize,
))
    requires
        counters_wf(buflen as int, mask as int, read as int, write as int),
    ensures
        r.1 == write - read,
        ranges_match(r.0, spec_filled_ranges(buflen as int, read as int, write as int)),
{
    proof {
        lemma_mask_is_mod(read, buflen);
    }
    let len = write - read;
    let start = read & mask;
    let headroom = buflen - start;
    if len <= headroom {
        ([start..start + len, 0..0], len)
    } else {
        ([start..buflen, 0..len - headroom], len)
    }
}

/// Computes the empty region for a producer: `buflen - (write - read)` bytes
/// starting at storage offset `write & mask`, split into at most two
/// contiguous ranges. The total length of the two ranges is returned
/// alongside them.
pub fn empty_ranges(buflen: usize, mask: usize, read: usize, write: usize) -> (r: (
    [Range<usize>; 2],
    usize,
))
    requires
        counters_wf(buflen as int, mask as int, read as int, write as int),
    ensures
        r.1 == buflen - (write - read),
        ranges_match(r.0, spec_empty_ranges(buflen as int, read as int, write as int)),
{
    proof {
        lemma_mask_is_mod(write, buflen);
    }
    let len = buflen - (write - read);
    let start = write & mask;
    let headroom = buflen - start;
    if len <= headroom {
        ([start..start + len, 0..0], len)
    } else {
        ([start..buflen, 0..len - headroom], len)
    }
}

} // verus!
