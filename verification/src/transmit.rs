//! Command transmission framing.
//!
//! The device cannot absorb a whole command in one write: bytes must be
//! paced onto the wire in bursts of at most two bytes, each followed by a
//! flush and a short pause. This module computes the burst sequence for a
//! command; the surrounding program performs the writes and the pauses.

use vstd::prelude::*;

verus! {

/// Concatenation of a sequence of byte chunks, in order.
pub open spec fn concat_chunks(chunks: Seq<Seq<u8>>) -> Seq<u8>
    decreases chunks.len(),
{
    if chunks.len() == 0 {
        Seq::empty()
    } else {
        chunks.first() + concat_chunks(chunks.drop_first())
    }
}

/// End of the chunk that starts at byte `2 * i` of a command of length `n`:
/// two bytes later, unless the command ends first.
pub open spec fn chunk_end(i: int, n: int) -> int {
    if 2 * i + 2 <= n {
        2 * i + 2
    } else {
        n
    }
}

/// A correct burst split of `cmd`: chunk `i` is the slice of `cmd` starting
/// at byte `2 * i`, two bytes long except possibly the last.
pub open spec fn chunks_of(chunks: Seq<Seq<u8>>, cmd: Seq<u8>) -> bool {
    &&& chunks.len() == (cmd.len() + 1) / 2
    &&& forall|i: int|
        0 <= i < chunks.len() ==> chunks[i] == cmd.subrange(2 * i, chunk_end(i, cmd.len() as int))
}

/// Splits a command's bytes into the bursts the device is sent: two bytes
/// each, in original order, the final burst holding the leftover byte when
/// the length is odd.
pub fn chunk_pairs(cmd: &[u8]) -> (chunks: Vec<Vec<u8>>)
    ensures
        chunks_of(chunks.deep_view(), cmd@),
{
    let n: usize = cmd.len();
    let mut chunks: Vec<Vec<u8>> = Vec::new();
    let mut i: usize = 0;
    while i < n
        invariant
            n == cmd@.len(),
            i <= n,
            i == 2 * chunks@.len() || (i == n && i + 1 == 2 * chunks@.len()),
            forall|k: int|
                0 <= k < chunks@.len() ==> #[trigger] chunks.deep_view()[k] == cmd@.subrange(
                    2 * k,
                    chunk_end(k, n as int),
                ),
        decreases n - i,
    {
        let ghost k = chunks@.len() as int;
        let mut chunk: Vec<u8> = Vec::new();
        chunk.push(cmd[i]);
        if i + 1 < n {
            chunk.push(cmd[i + 1]);
        }
        let ghost cv = chunk@;
        proof {
            assert(cv =~= cmd@.subrange(2 * k, chunk_end(k, n as int)));
        }
        let ghost prev = chunks.deep_view();
        chunks.push(chunk);
        proof {
            assert(chunks.deep_view() =~~= prev.push(cv));
        }
        if i + 1 < n {
            i = i + 2;
        } else {
            i = i + 1;
        }
    }
    chunks
}

/// Every burst but the last is exactly two bytes long, the last is one or
/// two bytes, and the bursts concatenate back to the command: nothing is
/// dropped, duplicated, or reordered.
pub proof fn lemma_chunks_exact(chunks: Seq<Seq<u8>>, cmd: Seq<u8>)
    requires
        chunks_of(chunks, cmd),
    ensures
        forall|i: int| 0 <= i < chunks.len() - 1 ==> #[trigger] chunks[i].len() == 2,
        chunks.len() > 0 ==> 1 <= chunks.last().len() <= 2,
        concat_chunks(chunks) == cmd,
    decreases chunks.len(),
{
    if chunks.len() == 0 {
        assert(concat_chunks(chunks) =~= cmd);
    } else {
        let e0 = chunk_end(0, cmd.len() as int);
        let rest = chunks.drop_first();
        let tail = cmd.skip(e0);
        assert(chunks[0] == cmd.subrange(0, e0));
        assert forall|i: int| 0 <= i < rest.len() implies rest[i] == tail.subrange(
            2 * i,
            chunk_end(i, tail.len() as int),
        ) by {
            assert(chunks[i + 1] == cmd.subrange(2 * (i + 1), chunk_end(i + 1, cmd.len() as int)));
            assert(rest[i] =~= tail.subrange(2 * i, chunk_end(i, tail.len() as int)));
        }
        assert(chunks_of(rest, tail));
        lemma_chunks_exact(rest, tail);
        assert(concat_chunks(chunks) =~= cmd);
    }
}

} // verus!
