use vstd::prelude::*;

use crate::bit::lemma_stack_source;
use crate::bit::BitSource;
use crate::errors::Error;
use crate::huffman::read_codes;
use crate::huffman::spec_read_codes;
use crate::Block;
use crate::BlockView;

verus! {

/// Writes a block out in its compressed form. A stored block's bytes are written as they
/// are; for a dynamic block, the trees are read first, and an error in them is returned.
/// Writing the codes of a Huffman block is not provided, so such a block whose trees read
/// is not accepted.
pub fn write_compressed(into: &mut Vec<u8>, block: &Block) -> (r: Result<(), Error>)
    requires
        crate::parse::block_wf(*block),
        match block@ {
            BlockView::Stored(_) => true,
            BlockView::Fixed(_) => false,
            BlockView::Dynamic(trees, _) => spec_read_codes(trees, 0) is Err && !(spec_read_codes(
                trees,
                0,
            ) matches Err(Error::UnexpectedEof)),
        },
    ensures
        match block@ {
            BlockView::Stored(data) => r is Ok && final(into)@ == old(into)@ + data,
            BlockView::Dynamic(trees, _) => r == Err::<(), Error>(spec_read_codes(trees, 0)->Err_0)
                && final(into)@ == old(into)@,
            BlockView::Fixed(_) => false,
        },
{
    match block {
        Block::Uncompressed(data) => {
            let mut i: usize = 0;
            let ghost start = into@;
            while i < data.len()
                invariant
                    i <= data@.len(),
                    into@ == start + data@.take(i as int),
                decreases data@.len() - i,
            {
                into.push(data[i]);
                i += 1;
                assert(into@ =~= start + data@.take(i as int));
            }
            assert(data@.take(data@.len() as int) =~= data@);
            Ok(())
        },
        Block::FixedHuffman(_) => {
            proof {
                assert(false);
            }
            Ok(())
        },
        Block::DynamicHuffman { trees, codes: _ } => {
            let mut it = trees.iter();
            proof {
                lemma_stack_source(&it);
                assert(it.all_bits().skip(0) =~= it.all_bits());
            }
            match read_codes(&mut it) {
                Err(e) => Err(e),
                Ok(_) => {
                    proof {
                        assert(false);
                    }
                    Ok(())
                },
            }
        },
    }
}

} // verus!
