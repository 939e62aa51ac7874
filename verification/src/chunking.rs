//! How a render request longer than the prepared block size is cut into
//! chunks, each rendered as one block.
use vstd::prelude::*;

verus! {

/// The sum of `lengths`.
pub open spec fn total(lengths: Seq<usize>) -> int
    decreases lengths.len(),
{
    if lengths.len() == 0 {
        0
    } else {
        total(lengths.drop_last()) + lengths.last()
    }
}

/// The chunk lengths a render of `frames` frames is split into when no
/// block may exceed `max_block_frames`: full blocks of `max_block_frames`
/// in order, then what is left. An empty render has no chunk, and a render
/// that fits in one block is that block alone.
pub fn render_chunk_lengths(frames: usize, max_block_frames: usize) -> (chunks: Vec<usize>)
    requires
        max_block_frames > 0,
    ensures
        total(chunks@) == frames,
        forall|i: int| 0 <= i < chunks@.len() - 1 ==> chunks@[i] == max_block_frames,
        forall|i: int| 0 <= i < chunks@.len() ==> 0 < #[trigger] chunks@[i] <= max_block_frames,
        chunks@.len() == (frames + max_block_frames - 1) / max_block_frames as int,
{
    let mut chunks: Vec<usize> = Vec::new();
    let mut rendered: usize = 0;
    while rendered < frames
        invariant
            rendered <= frames,
            total(chunks@) == rendered,
            forall|i: int| 0 <= i < chunks@.len() ==> #[trigger] chunks@[i] == max_block_frames,
            rendered == chunks@.len() * max_block_frames,
            max_block_frames > 0,
        decreases frames - rendered,
    {
        let left = frames - rendered;
        let chunk = if left < max_block_frames {
            left
        } else {
            max_block_frames
        };
        let ghost before = chunks@;
        chunks.push(chunk);
        proof {
            assert(chunks@.drop_last() =~= before);
        }
        rendered = rendered + chunk;
        if chunk < max_block_frames {
            proof {
                assert(frames == before.len() * max_block_frames + chunk);
                assert(chunks@.len() == (frames + max_block_frames - 1) / max_block_frames as int) by (nonlinear_arith)
                    requires
                        frames == before.len() * max_block_frames + chunk,
                        0 < chunk < max_block_frames,
                        chunks@.len() == before.len() + 1,
                {
                }
            }
            return chunks;
        }
        proof {
            assert(rendered == chunks@.len() * max_block_frames) by (nonlinear_arith)
                requires
                    rendered == before.len() * max_block_frames + max_block_frames,
                    chunks@.len() == before.len() + 1,
            {
            }
        }
    }
    proof {
        assert(chunks@.len() == (frames + max_block_frames - 1) / max_block_frames as int) by (nonlinear_arith)
            requires
                frames == chunks@.len() * max_block_frames,
                max_block_frames > 0,
        {
        }
    }
    chunks
}

} // verus!
