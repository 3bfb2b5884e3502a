//! The blocks in which a file is appended to its upload session.

use crate::dropbox::BLOCK_SIZE;
use vstd::prelude::*;

verus! {

/// One append call: where the block starts, counted from the start of the
/// file, how many bytes it holds, and whether the session closes with it.
#[derive(PartialEq, Eq, Debug, Clone, Copy, Structural)]
pub struct Block {
    pub offset: u64,
    pub len: u64,
    pub close: bool,
}

/// How many append calls a file with so many bytes left takes: one for
/// every block begun, and one, without bytes, for a file with none left.
pub open spec fn block_count(remaining: nat) -> nat {
    if remaining == 0 {
        1
    } else {
        ((remaining + BLOCK_SIZE - 1) / (BLOCK_SIZE as int)) as nat
    }
}

/// The `i`-th append call of a file of `file_size` bytes of which the first
/// `start_offset` are up already. Every block is full but the last, and the
/// last closes the session, whether it is full or not.
pub open spec fn planned_block(start_offset: nat, file_size: nat, i: nat) -> Block {
    let remaining = file_size - start_offset;
    let begin = i * BLOCK_SIZE;
    Block {
        offset: (start_offset + begin) as u64,
        len: if remaining - begin < BLOCK_SIZE {
            (remaining - begin) as u64
        } else {
            BLOCK_SIZE
        },
        close: i + 1 == block_count(remaining as nat),
    }
}

/// The append calls of a file, in order.
pub open spec fn planned_blocks(start_offset: nat, file_size: nat) -> Seq<Block> {
    Seq::new(
        block_count((file_size - start_offset) as nat),
        |i: int| planned_block(start_offset, file_size, i as nat),
    )
}

/// The blocks of a file follow one another without gap from the start
/// offset to the end of the file; all but the last are full and do not
/// close, and the last closes.
pub proof fn lemma_planned_blocks(start_offset: nat, file_size: nat)
    requires
        start_offset <= file_size <= u64::MAX,
    ensures
        planned_blocks(start_offset, file_size).len() >= 1,
        planned_blocks(start_offset, file_size)[0].offset == start_offset,
        forall|i: int|
            0 <= i < planned_blocks(start_offset, file_size).len() - 1 ==> {
                let b = #[trigger] planned_blocks(start_offset, file_size)[i];
                &&& b.len == BLOCK_SIZE
                &&& !b.close
                &&& planned_blocks(start_offset, file_size)[i + 1].offset == b.offset + b.len
            },
        ({
            let last = planned_blocks(start_offset, file_size).last();
            &&& last.close
            &&& last.len <= BLOCK_SIZE
            &&& last.offset + last.len == file_size
            &&& file_size > start_offset ==> last.len >= 1
        }),
{
    let blocks = planned_blocks(start_offset, file_size);
    let remaining = (file_size - start_offset) as nat;
    let n = block_count(remaining);
    assert forall|i: int| 0 <= i < blocks.len() - 1 implies {
        let b = #[trigger] blocks[i];
        &&& b.len == BLOCK_SIZE
        &&& !b.close
        &&& blocks[i + 1].offset == b.offset + b.len
    } by {
        assert((i + 1) * BLOCK_SIZE <= (n - 1) * BLOCK_SIZE);
    }
}

/// Lists the append calls of a file of `file_size` bytes of which the first
/// `start_offset` are up already. An offset past the end of the file gives
/// none.
pub fn plan_blocks(start_offset: u64, file_size: u64) -> (r: Option<Vec<Block>>)
    ensures
        match r {
            Some(blocks) => start_offset <= file_size && blocks@ == planned_blocks(
                start_offset as nat,
                file_size as nat,
            ),
            None => start_offset > file_size,
        },
{
    if start_offset > file_size {
        None
    } else {
        Some(blocks_from(start_offset, file_size))
    }
}

fn blocks_from(start_offset: u64, file_size: u64) -> (r: Vec<Block>)
    requires
        start_offset <= file_size,
    ensures
        r@ == planned_blocks(start_offset as nat, file_size as nat),
{
    let remaining: u64 = file_size - start_offset;
    let ghost n = block_count(remaining as nat);
    let mut out: Vec<Block> = Vec::new();
    let mut begin: u64 = 0;
    loop
        invariant
            remaining == file_size - start_offset,
            n == block_count(remaining as nat),
            n >= 1,
            (n - 1) * BLOCK_SIZE <= remaining <= n * BLOCK_SIZE,
            remaining > 0 ==> (n - 1) * BLOCK_SIZE < remaining,
            begin == out.len() * BLOCK_SIZE,
            out.len() < n,
            begin <= remaining,
            out@ == Seq::new(
                out.len() as nat,
                |i: int| planned_block(start_offset as nat, file_size as nat, i as nat),
            ),
        decreases n - out.len(),
    {
        let left: u64 = remaining - begin;
        let last = left <= BLOCK_SIZE;
        let len: u64 = if last {
            left
        } else {
            BLOCK_SIZE
        };
        let ghost i = out.len() as nat;
        proof {
            if last {
                assert(i + 1 == n) by {
                    assert(remaining <= (i + 1) * BLOCK_SIZE);
                }
            } else {
                assert(i + 1 < n) by {
                    assert(remaining > (i + 1) * BLOCK_SIZE);
                }
            }
        }
        out.push(Block { offset: start_offset + begin, len, close: last });
        proof {
            assert(out@ =~= Seq::new(
                out.len() as nat,
                |k: int| planned_block(start_offset as nat, file_size as nat, k as nat),
            ));
        }
        if last {
            return out;
        }
        begin = begin + BLOCK_SIZE;
    }
}

} // verus!
