//! A bounded, phase-typed buffer in which one log call renders one complete
//! entry.
//!
//! An [`EntryBuf`] is in its writing phase: text is appended through
//! [`EntryBuf::append`], which truncates at an encoding boundary rather than
//! overflow. [`EntryBuf::terminate`] consumes the writing value and produces an
//! [`Entry`], the reading phase, whose bytes always end in exactly one
//! newline; no further appends are possible on it.

use vstd::prelude::*;

verus! {

use vstd::string::StringSliceAdditionalSpecFns;
use vstd::utf8::{is_continuation_byte, valid_utf8};
use crate::MAX_ENTRY_SIZE;

/// The newline byte that terminates every entry.
pub const NEWLINE: u8 = 10;

/// Error reported by [`EntryBuf::append`] when not all of the input fit.
#[derive(Clone, Copy, Debug, PartialEq, Eq, Structural)]
pub struct Truncated;

/// The largest index `j <= k` such that `s[j]` does not continue a multi-byte
/// encoding, or 0 if every byte of `s[1..=k]` does.
pub open spec fn boundary_at_or_before(s: Seq<u8>, k: int) -> int
    recommends
        0 <= k < s.len(),
    decreases k,
{
    if k <= 0 {
        0
    } else if !is_continuation_byte(s[k]) {
        k
    } else {
        boundary_at_or_before(s, k - 1)
    }
}

/// How many leading bytes of `s` an append copies into a buffer with `room`
/// free bytes: all of `s` if it fits, otherwise back off from `room` to the
/// previous encoding boundary.
pub open spec fn fit_len(s: Seq<u8>, room: int) -> int
    recommends
        room >= 0,
{
    if s.len() <= room {
        s.len() as int
    } else {
        boundary_at_or_before(s, room)
    }
}

/// Free bytes of a writing buffer holding `buf`, keeping the final byte
/// reserved for the newline terminator.
pub open spec fn spec_room(buf: Seq<u8>) -> int {
    MAX_ENTRY_SIZE - 1 - buf.len()
}

/// The contents of a writing buffer holding `buf` after appending `s`.
pub open spec fn appended(buf: Seq<u8>, s: Seq<u8>) -> Seq<u8>
    recommends
        buf.len() < MAX_ENTRY_SIZE,
{
    buf + s.take(fit_len(s, spec_room(buf)))
}

/// Basic bounds on the cut point chosen by `boundary_at_or_before`.
proof fn lemma_boundary_bounds(s: Seq<u8>, k: int)
    requires
        0 <= k < s.len(),
    ensures
        0 <= boundary_at_or_before(s, k) <= k,
        boundary_at_or_before(s, k) > 0 ==> !is_continuation_byte(s[boundary_at_or_before(s, k)]),
        forall|j: int|
            boundary_at_or_before(s, k) < j <= k ==> is_continuation_byte(s[j]),
    decreases k,
{
    if k > 0 && is_continuation_byte(s[k]) {
        lemma_boundary_bounds(s, k - 1);
    }
}

/// A buffer for a single entry in its writing phase.
pub struct EntryBuf {
    buf: Vec<u8>,
}

/// One fully rendered, newline-terminated entry: a buffer in its reading
/// phase.
pub struct Entry {
    buf: Vec<u8>,
}

impl View for EntryBuf {
    type V = Seq<u8>;

    closed spec fn view(&self) -> Seq<u8> {
        self.buf@
    }
}

impl View for Entry {
    type V = Seq<u8>;

    closed spec fn view(&self) -> Seq<u8> {
        self.buf@
    }
}

impl EntryBuf {
    /// A writing buffer always keeps its final byte free for the terminator,
    /// and always holds valid text: appends cut only at encoding boundaries.
    pub open spec fn wf(&self) -> bool {
        self@.len() < MAX_ENTRY_SIZE && valid_utf8(self@)
    }

    /// An empty buffer with the full capacity reserved.
    pub fn new() -> (r: EntryBuf)
        ensures
            r.wf(),
            r@ == Seq::<u8>::empty(),
    {
        let r = EntryBuf { buf: Vec::with_capacity(MAX_ENTRY_SIZE) };
        proof {
            assert(valid_utf8(r@));
        }
        r
    }

    /// Appends as many complete encoding units of `s` as fit while keeping the
    /// final byte reserved. If the natural cut point would split a multi-byte
    /// sequence, the cut backs off to the last boundary strictly before it.
    /// Reports `Truncated` unless the entire input was appended.
    pub fn append(&mut self, s: &str) -> (r: Result<(), Truncated>)
        requires
            old(self).wf(),
        ensures
            final(self).wf(),
            final(self)@ == appended(old(self)@, s.spec_bytes()),
            r is Ok <==> final(self)@ == old(self)@ + s.spec_bytes(),
    {
        let bytes = s.as_bytes();
        let room = MAX_ENTRY_SIZE - 1 - self.buf.len();
        let mut to_write = bytes.len();
        if to_write > room {
            to_write = room;
            proof {
                lemma_boundary_bounds(bytes@, room as int);
            }
            while to_write > 0 && bytes[to_write] >= 0x80 && bytes[to_write] <= 0xbf
                invariant
                    0 <= to_write <= room < bytes@.len(),
                    boundary_at_or_before(bytes@, to_write as int) == boundary_at_or_before(
                        bytes@,
                        room as int,
                    ),
                decreases to_write,
            {
                to_write = to_write - 1;
            }
            assert(to_write as int == boundary_at_or_before(bytes@, room as int));
        }
        let ghost buf0 = self.buf@;
        let ghost fit = fit_len(bytes@, spec_room(buf0));
        assert(to_write as int == fit);
        let mut i: usize = 0;
        while i < to_write
            invariant
                0 <= i <= to_write,
                to_write as int == fit,
                fit <= bytes@.len(),
                self.buf@ == buf0 + bytes@.take(i as int),
            decreases to_write - i,
        {
            self.buf.push(bytes[i]);
            i = i + 1;
        }
        assert(self.buf@ == appended(buf0, s.spec_bytes()));
        proof {
            vstd::utf8::encode_utf8_valid_utf8(s@);
            if fit < bytes@.len() {
                if fit > 0 {
                    vstd::utf8::is_char_boundary_iff_not_is_continuation_byte(bytes@, fit);
                } else {
                    vstd::utf8::is_char_boundary_start_end_of_seq(bytes@);
                }
                vstd::utf8::valid_utf8_split(bytes@, fit);
                assert(bytes@.take(fit) =~= bytes@.subrange(0, fit));
            } else {
                assert(bytes@.take(fit) =~= bytes@);
            }
            vstd::utf8::valid_utf8_concat(buf0, bytes@.take(fit));
        }
        if to_write == bytes.len() {
            assert(bytes@.take(to_write as int) == bytes@);
            Ok(())
        } else {
            assert(self.buf@.len() < buf0.len() + bytes@.len());
            Err(Truncated)
        }
    }

    /// Appends exactly one newline using the reserved final byte and
    /// transitions to the reading phase; no further appends are possible.
    pub fn terminate(self) -> (e: Entry)
        requires
            self.wf(),
        ensures
            e.wf(),
            e@ == self@.push(NEWLINE),
    {
        let ghost b0 = self.buf@;
        let mut buf = self.buf;
        buf.push(NEWLINE);
        proof {
            reveal_strlit("\n");
            vstd::string::is_ascii_spec_bytes("\n");
            assert(vstd::string::is_ascii("\n"));
            assert("\n".spec_bytes() =~= seq![NEWLINE]);
            vstd::utf8::encode_utf8_valid_utf8("\n"@);
            vstd::utf8::valid_utf8_concat(b0, seq![NEWLINE]);
            assert(buf@ =~= b0 + seq![NEWLINE]);
        }
        Entry { buf }
    }
}

/// Relies on `core::str::from_utf8`: on valid UTF-8 input — which the
/// reading-phase invariant guarantees — decoding succeeds and the text holds
/// exactly the given bytes.
#[verifier::external_body]
fn bytes_as_str(v: &[u8]) -> (r: &str)
    requires
        valid_utf8(v@),
    ensures
        r.spec_bytes() == v@,
{
    core::str::from_utf8(v).unwrap_or("")
}

impl Entry {
    /// A finished entry is valid text of at least the terminator and at most
    /// the buffer capacity, ending in the newline.
    pub open spec fn wf(&self) -> bool {
        valid_utf8(self@) && 1 <= self@.len() <= MAX_ENTRY_SIZE && self@.last() == NEWLINE
    }

    /// The complete entry: the written text followed by the terminator.
    pub fn get(&self) -> (r: &str)
        requires
            self.wf(),
        ensures
            r.spec_bytes() == self@,
    {
        bytes_as_str(self.buf.as_slice())
    }

    /// The complete entry as bytes, for handing to a byte sink.
    pub fn bytes(&self) -> (r: &[u8])
        ensures
            r@ == self@,
    {
        self.buf.as_slice()
    }

    /// Byte length of the entry.
    pub fn len(&self) -> (n: usize)
        ensures
            n == self@.len(),
    {
        self.buf.len()
    }
}

/// The concatenation of a sequence of byte sequences.
pub open spec fn concat_all(pieces: Seq<Seq<u8>>) -> Seq<u8>
    decreases pieces.len(),
{
    if pieces.len() == 0 {
        Seq::<u8>::empty()
    } else {
        concat_all(pieces.drop_last()) + pieces.last()
    }
}

/// The contents of a writing buffer holding `buf` after appending each piece
/// in order, each truncated by whatever room the previous ones left.
pub open spec fn append_all(buf: Seq<u8>, pieces: Seq<Seq<u8>>) -> Seq<u8>
    decreases pieces.len(),
{
    if pieces.len() == 0 {
        buf
    } else {
        appended(append_all(buf, pieces.drop_last()), pieces.last())
    }
}

/// Peels one piece off the front of an `append_all` / `concat_all` chain.
pub proof fn lemma_append_all_step(buf: Seq<u8>, pieces: Seq<Seq<u8>>, k: int)
    requires
        0 <= k < pieces.len(),
    ensures
        append_all(buf, pieces.take(k + 1)) == appended(append_all(buf, pieces.take(k)), pieces[k]),
        concat_all(pieces.take(k + 1)) == concat_all(pieces.take(k)) + pieces[k],
{
    assert(pieces.take(k + 1).drop_last() =~= pieces.take(k));
    assert(pieces.take(k + 1).last() == pieces[k]);
}

/// A single append never removes bytes, never grows past its input, keeps the
/// buffer under the capacity, and copies everything exactly when the lengths
/// say it did.
pub proof fn lemma_appended_len(buf: Seq<u8>, s: Seq<u8>)
    requires
        buf.len() < MAX_ENTRY_SIZE,
    ensures
        buf.len() <= appended(buf, s).len() <= buf.len() + s.len(),
        appended(buf, s).len() < MAX_ENTRY_SIZE,
        (appended(buf, s) == buf + s) <==> (appended(buf, s).len() == buf.len() + s.len()),
{
    if s.len() > spec_room(buf) {
        lemma_boundary_bounds(s, spec_room(buf));
    }
    let fit = fit_len(s, spec_room(buf));
    assert(appended(buf, s).len() == buf.len() + fit);
    if appended(buf, s).len() == buf.len() + s.len() {
        assert(s.take(fit) =~= s);
        assert(appended(buf, s) =~= buf + s);
    }
}

/// Bounds of a whole append chain, and the exactness criterion: the chain
/// equals plain concatenation precisely when no piece was truncated, which
/// shows in the final length.
pub proof fn lemma_append_all_bounds(buf: Seq<u8>, pieces: Seq<Seq<u8>>)
    requires
        buf.len() < MAX_ENTRY_SIZE,
    ensures
        buf.len() <= append_all(buf, pieces).len() <= buf.len() + concat_all(pieces).len(),
        append_all(buf, pieces).len() < MAX_ENTRY_SIZE,
        (append_all(buf, pieces) == buf + concat_all(pieces)) <==> (append_all(
            buf,
            pieces,
        ).len() == buf.len() + concat_all(pieces).len()),
    decreases pieces.len(),
{
    if pieces.len() == 0 {
        assert(buf + concat_all(pieces) =~= buf);
    } else {
        let rest = pieces.drop_last();
        let s = pieces.last();
        lemma_append_all_bounds(buf, rest);
        let inner = append_all(buf, rest);
        lemma_appended_len(inner, s);
        if append_all(buf, pieces).len() == buf.len() + concat_all(pieces).len() {
            assert(inner.len() == buf.len() + concat_all(rest).len());
            assert(inner == buf + concat_all(rest));
            assert(appended(inner, s) == inner + s);
            assert((buf + concat_all(rest)) + s =~= buf + concat_all(pieces));
        }
        if append_all(buf, pieces) == buf + concat_all(pieces) {
            assert(append_all(buf, pieces).len() == buf.len() + concat_all(pieces).len());
        }
    }
}

/// Exactness: when everything fits within the reserved capacity, an append
/// chain is plain concatenation — a short entry is rendered without loss.
pub proof fn lemma_append_all_fits(buf: Seq<u8>, pieces: Seq<Seq<u8>>)
    requires
        buf.len() < MAX_ENTRY_SIZE,
        buf.len() + concat_all(pieces).len() <= MAX_ENTRY_SIZE - 1,
    ensures
        append_all(buf, pieces) == buf + concat_all(pieces),
    decreases pieces.len(),
{
    if pieces.len() == 0 {
        assert(buf + concat_all(pieces) =~= buf);
    } else {
        let rest = pieces.drop_last();
        let s = pieces.last();
        lemma_append_all_fits(buf, rest);
        let inner = append_all(buf, rest);
        assert(s.len() <= spec_room(inner));
        assert(s.take(fit_len(s, spec_room(inner))) =~= s);
        assert((buf + concat_all(rest)) + s =~= buf + concat_all(pieces));
    }
}

impl EntryBuf {
    /// Appends one piece of an append chain, carrying along whether every
    /// piece so far was copied whole.
    pub(crate) fn append_piece(
        &mut self,
        s: &str,
        ok: bool,
        Ghost(b0): Ghost<Seq<u8>>,
        Ghost(ps): Ghost<Seq<Seq<u8>>>,
        Ghost(k): Ghost<int>,
    ) -> (r: bool)
        requires
            old(self).wf(),
            0 <= k < ps.len(),
            ps[k] == s.spec_bytes(),
            b0.len() < MAX_ENTRY_SIZE,
            old(self)@ == append_all(b0, ps.take(k)),
            ok == (old(self)@ == b0 + concat_all(ps.take(k))),
        ensures
            final(self).wf(),
            final(self)@ == append_all(b0, ps.take(k + 1)),
            r == (final(self)@ == b0 + concat_all(ps.take(k + 1))),
    {
        let ghost prev = self@;
        let a = self.append(s);
        proof {
            lemma_append_all_step(b0, ps, k);
            lemma_append_all_bounds(b0, ps.take(k));
            lemma_append_all_bounds(b0, ps.take(k + 1));
            lemma_appended_len(prev, ps[k]);
            if ok && a is Ok {
                assert((b0 + concat_all(ps.take(k))) + ps[k] =~= b0 + concat_all(ps.take(k + 1)));
            }
            if self@ == b0 + concat_all(ps.take(k + 1)) {
                assert(self@.len() == b0.len() + concat_all(ps.take(k + 1)).len());
                assert(prev.len() == b0.len() + concat_all(ps.take(k)).len());
                assert(prev == b0 + concat_all(ps.take(k)));
                assert(self@ == prev + ps[k]);
            }
        }
        ok && a.is_ok()
    }
}

/// Round trip: any text whose encoding fits within the reserved capacity is
/// appended whole, so a fresh buffer, one append, and the terminator yield
/// exactly the text followed by one newline.
pub proof fn lemma_entry_round_trip(t: Seq<u8>)
    requires
        t.len() <= MAX_ENTRY_SIZE - 1,
    ensures
        appended(Seq::<u8>::empty(), t) == t,
        appended(Seq::<u8>::empty(), t).push(NEWLINE) == t.push(NEWLINE),
{
    assert(appended(Seq::<u8>::empty(), t) =~= t);
    assert(appended(Seq::<u8>::empty(), t).push(NEWLINE) =~= t.push(NEWLINE));
}

/// Truncation: text too large for a fresh buffer is cut to the last encoding
/// boundary at or before the reserved capacity — never to a dangling
/// continuation byte — and when the byte at the natural cut point starts an
/// encoding unit, exactly the first `MAX_ENTRY_SIZE - 1` bytes are kept.
pub proof fn lemma_append_truncates(t: Seq<u8>)
    requires
        t.len() > MAX_ENTRY_SIZE - 1,
    ensures
        appended(Seq::<u8>::empty(), t) == t.take(fit_len(t, MAX_ENTRY_SIZE - 1)),
        0 <= fit_len(t, MAX_ENTRY_SIZE - 1) <= MAX_ENTRY_SIZE - 1,
        fit_len(t, MAX_ENTRY_SIZE - 1) < t.len(),
        fit_len(t, MAX_ENTRY_SIZE - 1) > 0 ==> !is_continuation_byte(
            t[fit_len(t, MAX_ENTRY_SIZE - 1)],
        ),
        forall|j: int|
            fit_len(t, MAX_ENTRY_SIZE - 1) < j <= MAX_ENTRY_SIZE - 1 ==> is_continuation_byte(
                t[j],
            ),
        !is_continuation_byte(t[MAX_ENTRY_SIZE - 1]) ==> fit_len(t, MAX_ENTRY_SIZE - 1)
            == MAX_ENTRY_SIZE - 1,
        valid_utf8(t) ==> valid_utf8(appended(Seq::<u8>::empty(), t)),
{
    lemma_boundary_bounds(t, MAX_ENTRY_SIZE - 1);
    assert(appended(Seq::<u8>::empty(), t) =~= t.take(fit_len(t, MAX_ENTRY_SIZE - 1)));
    if valid_utf8(t) {
        let fit = fit_len(t, MAX_ENTRY_SIZE - 1);
        if fit > 0 {
            vstd::utf8::is_char_boundary_iff_not_is_continuation_byte(t, fit);
        } else {
            vstd::utf8::is_char_boundary_start_end_of_seq(t);
        }
        vstd::utf8::valid_utf8_split(t, fit);
        assert(t.take(fit) =~= t.subrange(0, fit));
    }
}

} // verus!
