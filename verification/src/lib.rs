//! A fixed-capacity byte ring buffer for streaming bulk I/O between one
//! producer and one consumer.
//!
//! The buffer owns a zero-initialized storage region whose size is a power of
//! two, and two absolute counters: `write`, the bytes produced since
//! construction, and `read`, the bytes consumed. Occupancy is plainly
//! `write - read`, so a full buffer and an empty one are never ambiguous and
//! no storage byte is wasted. Counters are projected onto storage offsets by
//! masking with `capacity - 1`; the filled and the empty region each come out
//! as at most two contiguous ranges, suitable for vectored I/O.
//!
//! [`Buffer::into_parts`] splits a buffer into a [`Reader`], which fills the
//! buffer (it is the producer: it offers the empty region to a data source),
//! and a [`Writer`], which drains it (the consumer: it offers the filled
//! region to a data sink). Each operation hands a caller-supplied function the
//! region as two byte views plus their total length, and advances the owning
//! counter by exactly the count the function reports; an error from the
//! function is passed through and commits nothing.
//!
//! The segment arithmetic lives in [`ranges`] and the storage with its
//! transactional operations in [`state`]; both carry their proofs. The two
//! endpoints share the state behind a reader-writer lock, so an operation on
//! one endpoint observes a consistent snapshot of both counters.

use core::cell::Cell;
use core::marker::PhantomData;
use std::sync::Arc;
use vstd::prelude::*;
use vstd::rwlock::RwLock;

pub mod ranges;
pub mod state;

use state::RingState;

verus! {

/// What every state stored in a ring's lock satisfies: well-formed storage
/// and counters, with the mask fixed at construction.
pub open spec fn ring_inv(s: RingState, mask: usize) -> bool {
    s.wf() && s.mask == mask
}

/// Declares core::cell::Cell so that `PhantomData<Cell<u8>>` can mark the two
/// endpoint types as sendable but not shareable, the way the std library
/// documents Cell (it is Send for a Send content, and never Sync). No method
/// of it is relied on; no value of it is ever made.
#[verifier::external_type_specification]
#[verifier::external_body]
#[verifier::reject_recursive_types(T)]
pub struct ExCell<T: ?Sized>(Cell<T>);

/// Relies on alloc::sync::Arc::clone: the clone refers to the same value.
#[verifier::external_body]
fn arc_clone<T>(a: &Arc<T>) -> (r: Arc<T>)
    ensures
        r == *a,
{
    Arc::clone(a)
}

/// An undivided ring buffer. It cannot move bytes itself; it exists to be
/// split once, by [`Buffer::into_parts`], into the two endpoints.
pub struct Buffer {
    shared: Arc<RwLock<RingState, spec_fn(RingState) -> bool>>,
    mask: usize,
}

/// The producing endpoint: fills the buffer by offering the empty region to a
/// caller-supplied function, as a destination for vectored reads from an
/// upstream source.
pub struct Reader {
    shared: Arc<RwLock<RingState, spec_fn(RingState) -> bool>>,
    mask: usize,
    /// Keeps the endpoint sendable but not shareable: at most one thread at a
    /// time may act as the producer.
    not_sync: PhantomData<Cell<u8>>,
}

/// The consuming endpoint: drains the buffer by offering the filled region to
/// a caller-supplied function, as a source for vectored writes to a
/// downstream sink.
pub struct Writer {
    shared: Arc<RwLock<RingState, spec_fn(RingState) -> bool>>,
    mask: usize,
    /// Keeps the endpoint sendable but not shareable: at most one thread at a
    /// time may act as the consumer.
    not_sync: PhantomData<Cell<u8>>,
}

impl Buffer {
    #[verifier::type_invariant]
    spec fn lock_wf(self) -> bool {
        forall|s: RingState| #[trigger] self.shared.inv(s) <==> ring_inv(s, self.mask)
    }

    /// Total storage capacity in bytes, fixed at construction.
    pub closed spec fn capacity(self) -> int {
        self.mask as int + 1
    }

    /// Creates a buffer of `size` zeroed bytes. `size` must be a power of two
    /// (which implies it is not zero). `align` is the storage alignment the
    /// caller asks of the allocator and must be a power of two as well; the
    /// ring itself never observes storage addresses, so no contract here
    /// depends on it.
    pub fn new(size: usize, align: usize) -> (b: Buffer)
        requires
            vstd::arithmetic::power2::is_pow2(size as int),
            vstd::arithmetic::power2::is_pow2(align as int),
        ensures
            b.capacity() == size,
    {
        proof {
            ranges::lemma_pow2_positive(size as int);
        }
        let mask = size - 1;
        let ghost m = mask;
        let mut data: Vec<u8> = Vec::new();
        let mut i: usize = 0;
        while i < size
            invariant
                i <= size,
                data.len() == i,
            decreases size - i,
        {
            data.push(0u8);
            i = i + 1;
        }
        let st = RingState { data, mask, read: 0, write: 0 };
        let lock = RwLock::new(st, Ghost(|s: RingState| ring_inv(s, m)));
        Buffer { shared: Arc::new(lock), mask }
    }

    /// Consumes the buffer and splits it into its two endpoints, which share
    /// the storage. Each endpoint can move to another thread.
    pub fn into_parts(self) -> (parts: (Reader, Writer))
        ensures
            parts.0.capacity() == self.capacity(),
            parts.1.capacity() == self.capacity(),
    {
        proof {
            use_type_invariant(&self);
        }
        let Buffer { shared, mask } = self;
        let reader = Reader { shared: arc_clone(&shared), mask, not_sync: PhantomData };
        let writer = Writer { shared, mask, not_sync: PhantomData };
        (reader, writer)
    }
}

impl Reader {
    #[verifier::type_invariant]
    spec fn lock_wf(self) -> bool {
        forall|s: RingState| #[trigger] self.shared.inv(s) <==> ring_inv(s, self.mask)
    }

    /// Total storage capacity in bytes, fixed at construction.
    pub closed spec fn capacity(self) -> int {
        self.mask as int + 1
    }

    /// Calls `f` with two mutable byte views of the empty region (the second
    /// is empty unless the region wraps around the end of storage) and their
    /// total length, which never exceeds the capacity. `f` reports how many of
    /// the bytes it left in the views, front first, are to be published; the
    /// write counter then advances by exactly that count. An error from `f` is
    /// returned unchanged and publishes nothing. `f` is called even when the
    /// views are empty; the call never blocks waiting for room.
    pub fn slices<E, F: FnOnce(&mut [u8], &mut [u8], usize) -> Result<usize, E>>(
        &self,
        f: F,
    ) -> (r: Result<usize, E>)
        requires
            forall|a: &mut [u8], b: &mut [u8], l: usize|
                (*a)@.len() + (*b)@.len() == l && l <= self.capacity() ==> call_requires(
                    f,
                    (a, b, l),
                ),
            forall|a: &mut [u8], b: &mut [u8], l: usize, res: Result<usize, E>|
                #[trigger] call_ensures(f, (a, b, l), res) ==> {
                    &&& (res matches Ok(n) ==> n <= l)
                    &&& (*final(a))@.len() == (*a)@.len()
                    &&& (*final(b))@.len() == (*b)@.len()
                },
        ensures
            (r matches Ok(n) ==> n <= self.capacity()),
            exists|a: &mut [u8], b: &mut [u8], l: usize|
                {
                    &&& #[trigger] call_ensures(f, (a, b, l), r)
                    &&& (*a)@.len() + (*b)@.len() == l
                    &&& l <= self.capacity()
                },
    {
        proof {
            use_type_invariant(self);
        }
        let (mut st, handle) = self.shared.acquire_write();
        proof {
            vstd::arithmetic::div_mod::lemma_mod_bound(st.write as int, st.capacity());
        }
        let r = st.produce_with(f);
        handle.release_write(st);
        r
    }

    /// Copies the longest prefix of `src` that fits into the empty region and
    /// publishes it, returning how many bytes were taken. A full buffer takes
    /// nothing; the call never blocks waiting for room.
    pub fn write_bytes(&self, src: &[u8]) -> (n: usize)
        ensures
            n <= src@.len(),
            n <= self.capacity(),
    {
        proof {
            use_type_invariant(self);
        }
        let (mut st, handle) = self.shared.acquire_write();
        let n = st.push_bytes(src);
        handle.release_write(st);
        n
    }

    /// The absolute count of bytes produced so far, as last published.
    pub fn position(&self) -> (n: usize)
        ensures
            exists|s: RingState|
                {
                    &&& #[trigger] ring_inv(s, (self.capacity() - 1) as usize)
                    &&& n == s.write
                },
    {
        proof {
            use_type_invariant(self);
        }
        let handle = self.shared.acquire_read();
        let n = handle.borrow().write;
        proof {
            assert(ring_inv(handle@, (self.capacity() - 1) as usize));
        }
        handle.release_read();
        n
    }
}

impl Writer {
    #[verifier::type_invariant]
    spec fn lock_wf(self) -> bool {
        forall|s: RingState| #[trigger] self.shared.inv(s) <==> ring_inv(s, self.mask)
    }

    /// Total storage capacity in bytes, fixed at construction.
    pub closed spec fn capacity(self) -> int {
        self.mask as int + 1
    }

    /// Calls `f` with two read-only byte views of the filled region (the
    /// second is empty unless the region wraps around the end of storage) and
    /// their total length, which never exceeds the capacity. `f` reports how
    /// many of those bytes, front first, it consumed; the read counter then
    /// advances by exactly that count. An error from `f` is returned unchanged
    /// and releases nothing. `f` is called even when the views are empty; the
    /// call never blocks waiting for data.
    pub fn slices<E, F: FnOnce(&[u8], &[u8], usize) -> Result<usize, E>>(&self, f: F) -> (r: Result<
        usize,
        E,
    >)
        requires
            forall|a: &[u8], b: &[u8], l: usize|
                a@.len() + b@.len() == l && l <= self.capacity() ==> call_requires(f, (a, b, l)),
            forall|a: &[u8], b: &[u8], l: usize, res: Result<usize, E>|
                #[trigger] call_ensures(f, (a, b, l), res) ==> (res matches Ok(n) ==> n <= l),
        ensures
            (r matches Ok(n) ==> n <= self.capacity()),
            exists|a: &[u8], b: &[u8], l: usize|
                {
                    &&& #[trigger] call_ensures(f, (a, b, l), r)
                    &&& a@.len() + b@.len() == l
                    &&& l <= self.capacity()
                },
    {
        proof {
            use_type_invariant(self);
        }
        let (mut st, handle) = self.shared.acquire_write();
        proof {
            vstd::arithmetic::div_mod::lemma_mod_bound(st.read as int, st.capacity());
        }
        let r = st.consume_with(f);
        handle.release_write(st);
        r
    }

    /// Appends up to `max` of the oldest filled bytes to `dst` and releases
    /// them, returning how many bytes were moved. Everything already in `dst`
    /// stays in front of them; an empty buffer moves nothing; the call never
    /// blocks waiting for data.
    pub fn read_bytes(&self, dst: &mut Vec<u8>, max: usize) -> (n: usize)
        ensures
            n <= max,
            n <= self.capacity(),
            final(dst)@.len() == old(dst)@.len() + n,
            final(dst)@.take(old(dst)@.len() as int) == old(dst)@,
    {
        proof {
            use_type_invariant(self);
        }
        let (mut st, handle) = self.shared.acquire_write();
        let n = st.pop_bytes(dst, max);
        handle.release_write(st);
        n
    }

    /// The absolute count of bytes consumed so far, as last published.
    pub fn position(&self) -> (n: usize)
        ensures
            exists|s: RingState|
                {
                    &&& #[trigger] ring_inv(s, (self.capacity() - 1) as usize)
                    &&& n == s.read
                },
    {
        proof {
            use_type_invariant(self);
        }
        let handle = self.shared.acquire_read();
        let n = handle.borrow().read;
        proof {
            assert(ring_inv(handle@, (self.capacity() - 1) as usize));
        }
        handle.release_read();
        n
    }

    /// Whether the buffer was drained at the moment of the observation: the
    /// two counters were equal, so no filled bytes were outstanding.
    pub fn is_empty(&self) -> (e: bool)
        ensures
            exists|s: RingState|
                {
                    &&& #[trigger] ring_inv(s, (self.capacity() - 1) as usize)
                    &&& e == (s.read == s.write)
                },
    {
        proof {
            use_type_invariant(self);
        }
        let handle = self.shared.acquire_read();
        let st = handle.borrow();
        let e = st.read == st.write;
        proof {
            assert(ring_inv(handle@, (self.capacity() - 1) as usize));
        }
        handle.release_read();
        e
    }
}

} // verus!
