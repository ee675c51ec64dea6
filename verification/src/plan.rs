//! The read plan for partial fingerprinting: which bytes of a candidate file
//! are digested before its whole content is read.

use crate::CHUNK_SIZE;
use crate::TAIL_THRESHOLD;
use vstd::prelude::*;

verus! {

/// How much of a file the partial fingerprint reads: `head_len` bytes from
/// offset 0 and then, when `tail_len > 0`, `tail_len` bytes starting at
/// offset `tail_offset`.
pub struct ChunkPlan {
    pub head_len: u64,
    pub tail_offset: u64,
    pub tail_len: u64,
}

/// The window of a file's content that the partial fingerprint digests: the
/// first `CHUNK_SIZE` bytes (the whole content when it is shorter), followed
/// by the last `CHUNK_SIZE` bytes when the content is strictly longer than
/// `TAIL_THRESHOLD`. At exactly `TAIL_THRESHOLD` bytes there is no tail
/// chunk.
pub open spec fn spec_partial_window(c: Seq<u8>) -> Seq<u8> {
    if c.len() > TAIL_THRESHOLD {
        c.take(CHUNK_SIZE as int) + c.skip(c.len() - CHUNK_SIZE)
    } else if c.len() > CHUNK_SIZE {
        c.take(CHUNK_SIZE as int)
    } else {
        c
    }
}

/// The read plan for a file of `size` bytes. Reading `head_len` bytes at
/// offset 0 and, when `tail_len > 0`, `tail_len` bytes at `tail_offset`
/// yields exactly the partial window of the content.
pub fn chunk_plan(size: u64) -> (p: ChunkPlan)
    ensures
        p.head_len == if size < CHUNK_SIZE {
            size
        } else {
            CHUNK_SIZE
        },
        (p.tail_len > 0) <==> size > TAIL_THRESHOLD,
        size > TAIL_THRESHOLD ==> p.tail_len == CHUNK_SIZE && p.tail_offset == size - CHUNK_SIZE,
        size <= TAIL_THRESHOLD ==> p.tail_len == 0 && p.tail_offset == 0,
        forall|c: Seq<u8>|
            c.len() == size ==> #[trigger] spec_partial_window(c) == c.subrange(
                0,
                p.head_len as int,
            ) + c.subrange(p.tail_offset as int, p.tail_offset + p.tail_len),
{
    let head_len: u64 = if size < CHUNK_SIZE {
        size
    } else {
        CHUNK_SIZE
    };
    let p = if size > TAIL_THRESHOLD {
        ChunkPlan { head_len, tail_offset: size - CHUNK_SIZE, tail_len: CHUNK_SIZE }
    } else {
        ChunkPlan { head_len, tail_offset: 0, tail_len: 0 }
    };
    proof {
        assert forall|c: Seq<u8>| c.len() == size implies #[trigger] spec_partial_window(c)
            == c.subrange(0, p.head_len as int) + c.subrange(
            p.tail_offset as int,
            p.tail_offset + p.tail_len,
        ) by {
            let rhs = c.subrange(0, p.head_len as int) + c.subrange(
                p.tail_offset as int,
                p.tail_offset + p.tail_len,
            );
            assert(spec_partial_window(c) =~= rhs);
        }
    }
    p
}

} // verus!
