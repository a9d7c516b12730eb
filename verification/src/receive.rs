//! Quiescence-based response harvesting.
//!
//! The transport reports only how many bytes happen to be buffered, and the
//! device's replies carry no terminator or length prefix. The only reliable
//! end-of-response signal is silence: a run of consecutive polls that all
//! return nothing. This module keeps the accumulated reply and the length
//! of the current quiet run; the surrounding program polls the transport on
//! a fixed cadence and feeds each poll's bytes in until `done` holds.

use vstd::prelude::*;
use crate::transmit::concat_chunks;

verus! {

/// Consecutive empty polls required before a reply counts as complete.
pub const QUIET_THRESHOLD: u64 = 10;

/// Receiver state for one response: everything read so far, and how many
/// polls in a row have come back empty.
pub struct Quiescence {
    /// Bytes accumulated from all polls so far, in arrival order.
    pub buf: Vec<u8>,
    /// Length of the current run of consecutive empty polls.
    pub quiet: u64,
}

impl Quiescence {
    /// Fresh receiver: nothing read, no quiet run.
    pub fn new() -> (q: Quiescence)
        ensures
            q.buf@ == Seq::<u8>::empty(),
            q.quiet == 0,
    {
        Quiescence { buf: Vec::new(), quiet: 0 }
    }

    /// Record one poll's bytes: data is appended and resets the quiet run;
    /// an empty poll lengthens it.
    pub fn feed(&mut self, poll: &[u8])
        requires
            old(self).quiet < QUIET_THRESHOLD,
        ensures
            final(self).buf@ == old(self).buf@ + poll@,
            final(self).quiet == if poll@.len() == 0 {
                old(self).quiet + 1
            } else {
                0
            },
    {
        if poll.len() == 0 {
            self.quiet = self.quiet + 1;
        } else {
            self.quiet = 0;
            self.buf.extend_from_slice(poll);
        }
        proof {
            assert(self.buf@ =~= old(self).buf@ + poll@);
        }
    }

    /// The device has gone quiet: the response is complete.
    pub fn done(&self) -> (b: bool)
        ensures
            b == (self.quiet >= QUIET_THRESHOLD),
    {
        self.quiet >= QUIET_THRESHOLD
    }

    /// Hands the accumulated response over for parsing.
    pub fn into_bytes(self) -> (b: Vec<u8>)
        ensures
            b@ == self.buf@,
    {
        self.buf
    }
}

/// Length of the trailing run of empty polls: the value of the quiet
/// counter after feeding `polls` in order into a fresh receiver.
pub open spec fn trailing_quiet(polls: Seq<Seq<u8>>) -> nat
    decreases polls.len(),
{
    if polls.len() == 0 {
        0
    } else if polls.last().len() > 0 {
        0
    } else {
        trailing_quiet(polls.drop_last()) + 1
    }
}

/// One more poll moves the trailing quiet run exactly as `feed` moves the
/// counter: an empty poll lengthens it, data resets it.
pub proof fn lemma_trailing_step(polls: Seq<Seq<u8>>, p: Seq<u8>)
    ensures
        trailing_quiet(polls.push(p)) == if p.len() == 0 {
            trailing_quiet(polls) + 1
        } else {
            0nat
        },
{
    assert(polls.push(p).drop_last() =~= polls);
}

/// The receive loop stops right after poll `n`: that is when the quiet run
/// first reaches the threshold.
pub open spec fn quiescent_at(polls: Seq<Seq<u8>>, n: int) -> bool {
    &&& 0 <= n <= polls.len()
    &&& trailing_quiet(polls.take(n)) >= QUIET_THRESHOLD
    &&& forall|m: int| 0 <= m < n ==> trailing_quiet(polls.take(m)) < QUIET_THRESHOLD
}

/// Appending one chunk appends its bytes to the concatenation.
pub proof fn lemma_concat_push(chunks: Seq<Seq<u8>>, x: Seq<u8>)
    ensures
        concat_chunks(chunks.push(x)) == concat_chunks(chunks) + x,
    decreases chunks.len(),
{
    if chunks.len() == 0 {
        assert(chunks.push(x).drop_first() =~= Seq::<Seq<u8>>::empty());
        assert(concat_chunks(Seq::<Seq<u8>>::empty()) =~= Seq::<u8>::empty());
        assert(concat_chunks(chunks.push(x)) =~= concat_chunks(chunks) + x);
    } else {
        assert(chunks.push(x).drop_first() =~= chunks.drop_first().push(x));
        lemma_concat_push(chunks.drop_first(), x);
        assert(concat_chunks(chunks.push(x)) =~= concat_chunks(chunks) + x);
    }
}

/// Empty polls past index `k` contribute nothing to the accumulated bytes.
proof fn lemma_concat_quiet(polls: Seq<Seq<u8>>, k: int, n: int)
    requires
        0 <= k <= n <= polls.len(),
        forall|i: int| k <= i < n ==> polls[i].len() == 0,
    ensures
        concat_chunks(polls.take(n)) == concat_chunks(polls.take(k)),
    decreases n - k,
{
    if n > k {
        lemma_concat_quiet(polls, k, n - 1);
        assert(polls.take(n) =~= polls.take(n - 1).push(polls[n - 1]));
        lemma_concat_push(polls.take(n - 1), polls[n - 1]);
        assert(concat_chunks(polls.take(n - 1)) + polls[n - 1] =~= concat_chunks(polls.take(n - 1)));
    }
}

/// After `j` empty polls on top of `k` non-empty ones, the quiet run is
/// exactly `j`.
proof fn lemma_trailing_run(polls: Seq<Seq<u8>>, k: int, n: int)
    requires
        0 <= k <= n <= polls.len(),
        forall|i: int| 0 <= i < k ==> polls[i].len() > 0,
        forall|i: int| k <= i < n ==> polls[i].len() == 0,
    ensures
        trailing_quiet(polls.take(n)) == n - k,
    decreases n - k,
{
    if n == k {
        if k > 0 {
            assert(polls.take(k).last() == polls[k - 1]);
        }
    } else {
        lemma_trailing_run(polls, k, n - 1);
        assert(polls.take(n) =~= polls.take(n - 1).push(polls[n - 1]));
        lemma_trailing_step(polls.take(n - 1), polls[n - 1]);
    }
}

/// A transport that yields data for the first `k` polls and nothing after
/// makes the receive loop stop after exactly `k + QUIET_THRESHOLD` polls,
/// with the accumulated bytes equal to the concatenation of the non-empty
/// polls in order.
pub proof fn lemma_quiescence_run(polls: Seq<Seq<u8>>, k: int)
    requires
        0 <= k,
        polls.len() == k + QUIET_THRESHOLD,
        forall|i: int| 0 <= i < k ==> polls[i].len() > 0,
        forall|i: int| k <= i < polls.len() ==> polls[i].len() == 0,
    ensures
        quiescent_at(polls, k + QUIET_THRESHOLD as int),
        concat_chunks(polls) == concat_chunks(polls.take(k)),
{
    let end = k + QUIET_THRESHOLD as int;
    lemma_trailing_run(polls, k, end);
    assert(polls.take(end) =~= polls);
    assert forall|m: int| 0 <= m < end implies trailing_quiet(polls.take(m)) < QUIET_THRESHOLD by {
        if m <= k {
            if m > 0 {
                assert(polls.take(m).last() == polls[m - 1]);
            }
        } else {
            lemma_trailing_run(polls, k, m);
        }
    }
    lemma_concat_quiet(polls, k, end);
}

} // verus!
