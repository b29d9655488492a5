//! The shared state coordinating producer threads with the single consumer.
//!
//! An [`Exchange`] holds the growable byte buffer entries are enqueued into
//! and the flag saying whether asynchronous mode is on. Callers guard a value
//! of it with one mutex and block on condition variables around the
//! operations here: a producer enqueues only when [`Exchange::fits`] says the
//! entry has room (backpressure, never dropping), and the consumer swaps the
//! whole buffer out in one shot ([`Exchange::swap_out`]) so no lock is held
//! during sink writes. Entries are appended atomically, so the buffer is
//! always a concatenation of whole entries: a swap never splits one.
//!
//! Room is claimed in lock-acquisition order, with no per-entry fairness
//! beyond that: under a sustained burst of small entries a large entry can
//! wait for room indefinitely. That is accepted best-effort behavior.

use vstd::prelude::*;

verus! {

use crate::entry_buf::concat_all;

/// The soft capacity in bytes of the asynchronous buffer. Entries are
/// enqueued atomically, so this must be at least `MAX_ENTRY_SIZE` or an
/// oversized entry could wait for room forever.
pub const ASYNC_BUF_SIZE: usize = 1048576;

/// The mutable state shared by producers and the consumer: the enqueued
/// bytes and the mode flag, plus a ghost record of the enqueued entries.
pub struct Exchange {
    async_buf: Vec<u8>,
    use_async: bool,
    entries: Ghost<Seq<Seq<u8>>>,
}

impl Exchange {
    /// The bytes currently enqueued.
    pub closed spec fn buffered(&self) -> Seq<u8> {
        self.async_buf@
    }

    /// The entries enqueued since the last swap, in enqueue order.
    pub closed spec fn entries(&self) -> Seq<Seq<u8>> {
        self.entries@
    }

    /// Whether asynchronous mode is on.
    pub closed spec fn async_on(&self) -> bool {
        self.use_async
    }

    /// The buffer is exactly the enqueued entries, concatenated in order and
    /// within the capacity: nothing is lost, duplicated, or split.
    pub open spec fn wf(&self) -> bool {
        self.buffered() == concat_all(self.entries()) && self.buffered().len() <= ASYNC_BUF_SIZE
    }

    /// Whether the consumer has nothing to do yet: no bytes and still
    /// asynchronous.
    pub open spec fn spec_should_wait(&self) -> bool {
        self.buffered().len() == 0 && self.async_on()
    }

    /// Whether a flush is complete: nothing buffered, or nothing will drain
    /// it because asynchronous mode is off.
    pub open spec fn spec_drained(&self) -> bool {
        !self.async_on() || self.buffered().len() == 0
    }

    /// A fresh exchange: empty, synchronous.
    pub fn new() -> (e: Exchange)
        ensures
            e.wf(),
            !e.async_on(),
            e.buffered() == Seq::<u8>::empty(),
            e.entries() == Seq::<Seq<u8>>::empty(),
    {
        Exchange {
            async_buf: Vec::with_capacity(ASYNC_BUF_SIZE),
            use_async: false,
            entries: Ghost(Seq::empty()),
        }
    }

    /// Whether asynchronous mode is on.
    pub fn is_async(&self) -> (b: bool)
        ensures
            b == self.async_on(),
    {
        self.use_async
    }

    /// Turns asynchronous mode on. Turning it on while it already is on is a
    /// usage error, which the caller must rule out before calling.
    pub fn enable(&mut self)
        requires
            old(self).wf(),
            !old(self).async_on(),
        ensures
            final(self).wf(),
            final(self).async_on(),
            final(self).buffered() == old(self).buffered(),
            final(self).entries() == old(self).entries(),
    {
        self.use_async = true;
    }

    /// Turns asynchronous mode off, dropping nothing: whatever was enqueued
    /// stays buffered for the consumer's final pass.
    pub fn disable(&mut self)
        requires
            old(self).wf(),
            old(self).async_on(),
        ensures
            final(self).wf(),
            !final(self).async_on(),
            final(self).buffered() == old(self).buffered(),
            final(self).entries() == old(self).entries(),
    {
        self.use_async = false;
    }

    /// Whether an entry of `n` bytes has room right now.
    pub fn fits(&self, n: usize) -> (b: bool)
        requires
            self.wf(),
        ensures
            b == (self.buffered().len() + n <= ASYNC_BUF_SIZE),
    {
        n <= ASYNC_BUF_SIZE - self.async_buf.len()
    }

    /// Appends one whole entry to the buffer. The caller must have seen room
    /// for it (producers block on the room condition until there is).
    pub fn enqueue(&mut self, msg: &[u8])
        requires
            old(self).wf(),
            old(self).buffered().len() + msg@.len() <= ASYNC_BUF_SIZE,
        ensures
            final(self).wf(),
            final(self).buffered() == old(self).buffered() + msg@,
            final(self).entries() == old(self).entries().push(msg@),
            final(self).async_on() == old(self).async_on(),
    {
        let ghost b0 = self.async_buf@;
        let mut i: usize = 0;
        while i < msg.len()
            invariant
                0 <= i <= msg@.len(),
                self.async_buf@ == b0 + msg@.take(i as int),
                self.use_async == old(self).use_async,
                self.entries == old(self).entries,
                b0.len() + msg@.len() <= ASYNC_BUF_SIZE,
            decreases msg@.len() - i,
        {
            self.async_buf.push(msg[i]);
            i = i + 1;
        }
        self.entries = Ghost(self.entries@.push(msg@));
        proof {
            assert(self.entries@.drop_last() =~= old(self).entries@);
            assert(b0 + msg@.take(msg@.len() as int) =~= b0 + msg@);
        }
    }

    /// The consumer's double-buffering step: hands the caller everything
    /// enqueued so far in one shot, leaves the buffer empty, and reports
    /// whether asynchronous mode was still on at that moment.
    pub fn swap_out(&mut self, out: &mut Vec<u8>) -> (still_async: bool)
        requires
            old(self).wf(),
        ensures
            final(self).wf(),
            final(out)@ == old(self).buffered(),
            final(self).buffered() == Seq::<u8>::empty(),
            final(self).entries() == Seq::<Seq<u8>>::empty(),
            final(self).async_on() == old(self).async_on(),
            still_async == old(self).async_on(),
    {
        out.clear();
        core::mem::swap(&mut self.async_buf, out);
        self.entries = Ghost(Seq::empty());
        self.use_async
    }

    /// Whether the consumer should block for more input: nothing buffered
    /// and asynchronous mode still on.
    pub fn should_wait(&self) -> (b: bool)
        ensures
            b == self.spec_should_wait(),
    {
        self.async_buf.is_empty() && self.use_async
    }

    /// Whether a flush is complete.
    pub fn drained(&self) -> (b: bool)
        ensures
            b == self.spec_drained(),
    {
        !self.use_async || self.async_buf.is_empty()
    }
}

/// The byte length of a list of entries, summed.
pub open spec fn sum_lens(es: Seq<Seq<u8>>) -> int
    decreases es.len(),
{
    if es.len() == 0 {
        0
    } else {
        sum_lens(es.drop_last()) + es.last().len()
    }
}

/// A sum of lengths is never negative.
pub proof fn lemma_sum_lens_nonneg(es: Seq<Seq<u8>>)
    ensures
        sum_lens(es) >= 0,
    decreases es.len(),
{
    if es.len() > 0 {
        lemma_sum_lens_nonneg(es.drop_last());
    }
}

/// Conservation of bytes: the buffer holds exactly as many bytes as the
/// enqueued entries together — none lost, none duplicated.
pub proof fn lemma_concat_len(es: Seq<Seq<u8>>)
    ensures
        concat_all(es).len() == sum_lens(es),
    decreases es.len(),
{
    if es.len() > 0 {
        lemma_concat_len(es.drop_last());
    }
}

/// The byte offset at which entry `i` starts within the concatenation.
pub open spec fn entry_offset(es: Seq<Seq<u8>>, i: int) -> int {
    sum_lens(es.take(i))
}

/// Delivery is whole and in order: each enqueued entry appears intact at its
/// offset in the buffer a swap hands out — entries are never split,
/// reordered, or interleaved.
pub proof fn lemma_entry_intact(es: Seq<Seq<u8>>, i: int)
    requires
        0 <= i < es.len(),
    ensures
        entry_offset(es, i) + es[i].len() <= concat_all(es).len(),
        concat_all(es).subrange(entry_offset(es, i), entry_offset(es, i) + es[i].len()) == es[i],
    decreases es.len(),
{
    lemma_concat_len(es);
    lemma_sum_lens_nonneg(es.take(i));
    if i == es.len() - 1 {
        assert(es.take(i) =~= es.drop_last());
        lemma_concat_len(es.drop_last());
        assert(concat_all(es).subrange(entry_offset(es, i), entry_offset(es, i) + es[i].len())
            =~= es[i]);
    } else {
        lemma_entry_intact(es.drop_last(), i);
        assert(es.drop_last().take(i) =~= es.take(i));
        assert(es.drop_last()[i] == es[i]);
        lemma_concat_len(es.drop_last());
        let o = entry_offset(es, i);
        let l = es[i].len() as int;
        assert(concat_all(es) == concat_all(es.drop_last()) + es.last());
        assert(entry_offset(es.drop_last(), i) == o);
        assert(o + l <= concat_all(es.drop_last()).len());
        assert forall|m: int| 0 <= m < l implies concat_all(es)[o + m] == es[i][m] by {
            assert(concat_all(es)[o + m] == concat_all(es.drop_last())[o + m]);
            assert(concat_all(es.drop_last()).subrange(o, o + l)[m] == es[i][m]);
        }
        assert(concat_all(es).subrange(o, o + l) =~= es[i]);
    }
}

/// Disabling drains: turning asynchronous mode off leaves every enqueued
/// entry in place, and the consumer's wait predicate is then false, so its
/// final pass swaps out everything enqueued before the disable call.
pub proof fn lemma_disable_then_final_drain(e: Exchange)
    requires
        e.wf(),
        !e.async_on(),
    ensures
        !e.spec_should_wait(),
        e.buffered() == concat_all(e.entries()),
{
}

/// A flush may return only once the exchange reports drained; while
/// asynchronous mode is on, that means the buffer is empty, so every entry
/// enqueued before the flush has been swapped out to the sink.
pub proof fn lemma_drained_means_delivered(e: Exchange)
    requires
        e.wf(),
        e.async_on(),
        e.spec_drained(),
    ensures
        e.buffered().len() == 0,
        sum_lens(e.entries()) == 0,
{
    lemma_concat_len(e.entries());
}

} // verus!
