//! The fold: content bytes, packed into blocks and found again by location and identity.
//!
//! A block is held as the bytes it decodes to. Which blocks were given up is declared from
//! outside, because a deallocated block reads as zeros and cannot say so itself.

use crate::bytes;
use crate::hash;
use crate::types::PieceHash;
use vstd::prelude::*;
use vstd::slice::slice_subrange;

verus! {

/// Where a piece lies.
#[derive(Clone, Copy, Debug, PartialEq, Eq, PartialOrd, Ord, Structural)]
pub struct Loc {
    pub block_id: u32,
    pub in_off: u32,
    /// Length of the piece.
    pub raw: u32,
}

/// Why a location does not give its piece.
#[derive(Clone, Copy, Debug, PartialEq, Eq, Structural)]
pub enum FoldError {
    /// The block was given up.
    Erased { block_id: u32 },
    /// There is no such block.
    NoBlock { block_id: u32 },
    /// The location reaches past its block.
    OutsideBlock { block_id: u32 },
    /// The bytes there are not the piece.
    Mismatch { block_id: u32 },
}

/// One decoded block.
#[derive(Debug, PartialEq, Eq)]
pub struct Block {
    /// The segment that stores it.
    pub segment: u32,
    /// Where its frame ends in that segment.
    pub end: u64,
    pub bytes: Vec<u8>,
}

/// View of a [`Block`].
pub struct BlockView {
    pub segment: u32,
    pub end: u64,
    pub bytes: Seq<u8>,
}

impl View for Block {
    type V = BlockView;

    open spec fn view(&self) -> BlockView {
        BlockView { segment: self.segment, end: self.end, bytes: self.bytes@ }
    }
}

/// Views of blocks.
pub open spec fn blocks_view(blocks: Seq<Block>) -> Seq<BlockView> {
    Seq::new(blocks.len(), |i: int| blocks[i]@)
}

impl Clone for Block {
    fn clone(&self) -> (r: Block)
        ensures
            r@ == self@,
    {
        let mut bytes: Vec<u8> = Vec::new();
        bytes::append_bytes(&mut bytes, self.bytes.as_slice());
        assert(bytes@ =~= self.bytes@);
        Block { segment: self.segment, end: self.end, bytes }
    }
}

/// Copy blocks.
pub fn clone_blocks(blocks: &Vec<Block>) -> (r: Vec<Block>)
    ensures
        blocks_view(r@) == blocks_view(blocks@),
{
    let mut out: Vec<Block> = Vec::new();
    let mut i: usize = 0;
    while i < blocks.len()
        invariant
            i <= blocks@.len(),
            out@.len() == i,
            forall|k: int| 0 <= k < i ==> (#[trigger] out@[k])@ == blocks@[k]@,
        decreases blocks.len() - i,
    {
        out.push(blocks[i].clone());
        i = i + 1;
    }
    assert(blocks_view(out@) =~= blocks_view(blocks@));
    out
}

/// Copy segments.
pub fn clone_segments(segments: &Vec<(u32, u64)>) -> (r: Vec<(u32, u64)>)
    ensures
        r@ == segments@,
{
    let mut out: Vec<(u32, u64)> = Vec::new();
    let mut i: usize = 0;
    while i < segments.len()
        invariant
            i <= segments@.len(),
            out@ == segments@.take(i as int),
        decreases segments.len() - i,
    {
        out.push(segments[i]);
        i = i + 1;
        assert(out@ =~= segments@.take(i as int));
    }
    assert(out@ =~= segments@);
    out
}

/// The blocks of one fold generation, block ids being their positions.
#[derive(Debug, PartialEq, Eq)]
pub struct Fold {
    pub blocks: Vec<Block>,
    /// Its segments, each with its number and its length.
    pub segments: Vec<(u32, u64)>,
    /// Ids of blocks that were given up, as inclusive ranges.
    pub punched: Vec<(u32, u32)>,
}

/// View of a [`Fold`].
pub struct FoldView {
    pub blocks: Seq<BlockView>,
    pub segments: Seq<(u32, u64)>,
    pub punched: Seq<(u32, u32)>,
}

impl View for Fold {
    type V = FoldView;

    open spec fn view(&self) -> FoldView {
        FoldView {
            blocks: blocks_view(self.blocks@),
            segments: self.segments@,
            punched: self.punched@,
        }
    }
}

/// Whether some range holds a block id.
pub open spec fn in_ranges(ranges: Seq<(u32, u32)>, id: u32) -> bool {
    exists|i: int| 0 <= i < ranges.len() && (#[trigger] ranges[i]).0 <= id <= ranges[i].1
}

/// The bytes at a location, wanted as the piece with this identity.
pub open spec fn fold_read(f: FoldView, loc: Loc, h: Seq<u8>) -> Result<Seq<u8>, FoldError> {
    if in_ranges(f.punched, loc.block_id) {
        Err(FoldError::Erased { block_id: loc.block_id })
    } else if loc.block_id >= f.blocks.len() {
        Err(FoldError::NoBlock { block_id: loc.block_id })
    } else {
        let b = f.blocks[loc.block_id as int].bytes;
        if loc.in_off + loc.raw > b.len() {
            Err(FoldError::OutsideBlock { block_id: loc.block_id })
        } else {
            let piece = b.subrange(loc.in_off as int, loc.in_off + loc.raw);
            if hash::blake3_digest(piece) != h {
                Err(FoldError::Mismatch { block_id: loc.block_id })
            } else {
                Ok(piece)
            }
        }
    }
}

/// What is wrong with the shape of a location: there is no such block, or it reaches past its
/// block. A block that was given up is held with the length it had.
pub open spec fn shape_fault(f: FoldView, loc: Loc) -> Option<FoldError> {
    if loc.block_id >= f.blocks.len() {
        Some(FoldError::NoBlock { block_id: loc.block_id })
    } else if loc.in_off + loc.raw > f.blocks[loc.block_id as int].bytes.len() {
        Some(FoldError::OutsideBlock { block_id: loc.block_id })
    } else {
        None
    }
}

/// Whether some range holds a block id.
pub fn range_holds(ranges: &Vec<(u32, u32)>, id: u32) -> (r: bool)
    ensures
        r == in_ranges(ranges@, id),
{
    let mut i: usize = 0;
    while i < ranges.len()
        invariant
            i <= ranges@.len(),
            forall|k: int|
                0 <= k < i ==> !((#[trigger] ranges@[k]).0 <= id <= ranges@[k].1),
        decreases ranges.len() - i,
    {
        if ranges[i].0 <= id && id <= ranges[i].1 {
            assert(ranges@[i as int].0 <= id <= ranges@[i as int].1);
            return true;
        }
        i = i + 1;
    }
    false
}

impl Fold {
    /// Whether a block was given up.
    pub fn is_punched(&self, block_id: u32) -> (r: bool)
        ensures
            r == in_ranges(self@.punched, block_id),
    {
        range_holds(&self.punched, block_id)
    }

    /// Whether a location lies inside a block, given up or not.
    pub fn verify_location_shape(&self, loc: Loc) -> (r: Result<(), FoldError>)
        ensures
            match r {
                Ok(()) => shape_fault(self@, loc) is None,
                Err(e) => shape_fault(self@, loc) == Some(e),
            },
    {
        if loc.block_id as u64 >= self.blocks.len() as u64 {
            return Err(FoldError::NoBlock { block_id: loc.block_id });
        }
        let block = &self.blocks[loc.block_id as usize];
        assert(self@.blocks[loc.block_id as int] == block@);
        if loc.in_off as u64 + loc.raw as u64 > block.bytes.len() as u64 {
            return Err(FoldError::OutsideBlock { block_id: loc.block_id });
        }
        Ok(())
    }

    /// The piece at a location, checked against its identity.
    pub fn read_verified(&self, loc: Loc, h: &PieceHash) -> (r: Result<&[u8], FoldError>)
        ensures
            match r {
                Ok(b) => fold_read(self@, loc, h@) == Ok::<Seq<u8>, FoldError>(b@),
                Err(e) => fold_read(self@, loc, h@) == Err::<Seq<u8>, FoldError>(e),
            },
    {
        if self.is_punched(loc.block_id) {
            return Err(FoldError::Erased { block_id: loc.block_id });
        }
        if loc.block_id as u64 >= self.blocks.len() as u64 {
            return Err(FoldError::NoBlock { block_id: loc.block_id });
        }
        let block = &self.blocks[loc.block_id as usize];
        assert(self@.blocks[loc.block_id as int] == block@);
        let end: u64 = loc.in_off as u64 + loc.raw as u64;
        if end > block.bytes.len() as u64 {
            return Err(FoldError::OutsideBlock { block_id: loc.block_id });
        }
        let piece = slice_subrange(block.bytes.as_slice(), loc.in_off as usize, end as usize);
        let got = PieceHash::of(piece);
        if !got.same(h) {
            return Err(FoldError::Mismatch { block_id: loc.block_id });
        }
        Ok(piece)
    }
}

} // verus!
