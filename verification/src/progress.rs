//! How far one piece has come: which of its blocks have arrived, and from
//! whom.
//!
//! A piece is asked for block by block. All blocks have the block size but
//! the last, which has what is left of the piece.

use vstd::prelude::*;

verus! {

/// A block that has arrived: who sent it, and its bytes.
pub struct Block {
    from: usize,
    data: Vec<u8>,
}

/// A block as a mathematical value.
pub struct BlockView {
    pub from: usize,
    pub data: Seq<u8>,
}

impl View for Block {
    type V = BlockView;

    closed spec fn view(&self) -> BlockView {
        BlockView { from: self.from, data: self.data@ }
    }
}

/// The blocks of one piece, each arrived or missing.
pub struct PieceProgress {
    length: usize,
    block_size: usize,
    blocks: Vec<Option<Block>>,
}

/// The progress of a piece as a mathematical value.
pub struct ProgressView {
    /// The number of bytes of the piece.
    pub length: usize,
    /// The number of bytes of each block but the last.
    pub block_size: usize,
    /// The blocks in order, `None` for one that is missing.
    pub blocks: Seq<Option<BlockView>>,
}

/// How a stored block shows in the view.
pub open spec fn slot_view(slot: Option<Block>) -> Option<BlockView> {
    match slot {
        Some(block) => Some(block@),
        None => None,
    }
}

impl View for PieceProgress {
    type V = ProgressView;

    closed spec fn view(&self) -> ProgressView {
        ProgressView {
            length: self.length,
            block_size: self.block_size,
            blocks: self.blocks@.map_values(|slot: Option<Block>| slot_view(slot)),
        }
    }
}

/// The number of blocks of a piece of `length` bytes.
pub open spec fn block_count(length: int, block_size: int) -> int {
    if length % block_size == 0 {
        length / block_size
    } else {
        length / block_size + 1
    }
}

/// The number of bytes of the block `b` of a piece of `length` bytes: the
/// block size, or what is left of the piece from the start of the block on.
pub open spec fn block_length(length: int, block_size: int, b: int) -> int {
    if length - b * block_size < block_size {
        length - b * block_size
    } else {
        block_size
    }
}

/// The blocks of a piece lie within the piece, and none is empty.
pub proof fn lemma_block_bounds(length: int, block_size: int, b: int)
    requires
        0 <= length,
        0 < block_size,
        0 <= b < block_count(length, block_size),
    ensures
        0 <= b * block_size < length,
        0 < block_length(length, block_size, b) <= block_size,
        b * block_size + block_length(length, block_size, b) <= length,
        block_count(length, block_size) <= length,
{
    let q = length / block_size;
    let r = length % block_size;
    assert(length == q * block_size + r && 0 <= r < block_size) by (nonlinear_arith)
        requires
            q == length / block_size,
            r == length % block_size,
            0 < block_size,
            0 <= length,
    ;
    assert(b * block_size < length && 0 <= b * block_size) by (nonlinear_arith)
        requires
            0 <= b,
            b < q || (b == q && r > 0),
            length == q * block_size + r,
            0 <= r < block_size,
    ;
    assert(q <= length) by (nonlinear_arith)
        requires
            length == q * block_size + r,
            0 <= r,
            1 <= block_size,
            0 <= q,
    ;
    assert(r > 0 ==> q < length) by (nonlinear_arith)
        requires
            length == q * block_size + r,
            0 <= r,
            1 <= block_size,
            0 <= q,
    ;
}

/// The bytes of the blocks that have arrived, in order.
pub open spec fn bytes_of(blocks: Seq<Option<BlockView>>) -> Seq<u8>
    decreases blocks.len(),
{
    if blocks.len() == 0 {
        Seq::empty()
    } else {
        bytes_of(blocks.drop_last()) + match blocks.last() {
            Some(block) => block.data,
            None => Seq::empty(),
        }
    }
}

impl ProgressView {
    /// Whether the progress is in order: the block size is not zero, there
    /// is one place for each block of the piece, and each block that has
    /// arrived has the length of its place.
    pub open spec fn wf(self) -> bool {
        &&& self.block_size > 0
        &&& self.blocks.len() == block_count(self.length as int, self.block_size as int)
        &&& forall|b: int|
            0 <= b < self.blocks.len() ==> ((#[trigger] self.blocks[b]) matches Some(block)
                ==> block.data.len() == block_length(
                self.length as int,
                self.block_size as int,
                b,
            ))
    }

    /// Whether the block `b` is missing.
    pub open spec fn missing(self, b: int) -> bool {
        0 <= b < self.blocks.len() && self.blocks[b] is None
    }

    /// Whether every block has arrived.
    pub open spec fn complete(self) -> bool {
        forall|b: int| 0 <= b < self.blocks.len() ==> (#[trigger] self.blocks[b]) is Some
    }

    /// Whether a block with these bytes from offset `begin` on is wanted:
    /// the offset is the start of a block that is missing, and the bytes are
    /// as many as that block has.
    pub open spec fn wants(self, begin: int, size: int) -> bool {
        &&& begin % (self.block_size as int) == 0
        &&& self.missing(begin / (self.block_size as int))
        &&& size == block_length(
            self.length as int,
            self.block_size as int,
            begin / (self.block_size as int),
        )
    }

    /// The progress with the block `b` arrived from `from`.
    pub open spec fn stored(self, b: int, from: usize, data: Seq<u8>) -> ProgressView {
        ProgressView { blocks: self.blocks.update(b, Some(BlockView { from, data })), ..self }
    }

    /// The progress with every block missing again.
    pub open spec fn emptied(self) -> ProgressView {
        ProgressView { blocks: Seq::new(self.blocks.len(), |b: int| None), ..self }
    }

    /// Whether a block that has arrived came from `peer`.
    pub open spec fn supplied_by(self, peer: usize) -> bool {
        exists|b: int|
            0 <= b < self.blocks.len() && ((#[trigger] self.blocks[b]) matches Some(block)
                && block.from == peer)
    }
}

/// The bytes of the first `count` places, where all of them have arrived,
/// are as many as these blocks cover of the piece.
proof fn lemma_bytes_of_prefix(v: ProgressView, count: int)
    requires
        v.wf(),
        0 <= count <= v.blocks.len(),
        forall|b: int| 0 <= b < count ==> (#[trigger] v.blocks[b]) is Some,
    ensures
        count < v.blocks.len() ==> bytes_of(v.blocks.take(count)).len() == count * v.block_size,
        count == v.blocks.len() ==> bytes_of(v.blocks.take(count)).len() == v.length,
    decreases count,
{
    let length = v.length as int;
    let size = v.block_size as int;
    if count == 0 {
        if v.blocks.len() == 0 {
            assert(length == 0) by (nonlinear_arith)
                requires
                    block_count(length, size) == 0,
                    0 <= length,
                    0 < size,
            ;
        }
    } else {
        lemma_bytes_of_prefix(v, count - 1);
        lemma_block_bounds(length, size, count - 1);
        assert(v.blocks.take(count).drop_last() =~= v.blocks.take(count - 1));
        assert(v.blocks.take(count).last() == v.blocks[count - 1]);
        assert(v.blocks[count - 1] is Some);
        let last = block_length(length, size, count - 1);
        assert(bytes_of(v.blocks.take(count)).len() == (count - 1) * size + last);
        assert((count - 1) * size + size == count * size) by (nonlinear_arith);
        if count < v.blocks.len() {
            lemma_block_bounds(length, size, count);
            assert(last == size) by (nonlinear_arith)
                requires
                    count * size < length,
                    last == block_length(length, size, count - 1),
                    (count - 1) * size + size == count * size,
            ;
        } else {
            assert(last == length - (count - 1) * size) by (nonlinear_arith)
                requires
                    count == block_count(length, size),
                    last == block_length(length, size, count - 1),
                    0 < size,
                    0 <= length,
                    0 < count,
            ;
        }
    }
}

impl PieceProgress {
    /// The progress of a piece of `length` bytes of which nothing has
    /// arrived.
    pub fn new(length: usize, block_size: usize) -> (progress: Self)
        requires
            block_size > 0,
        ensures
            progress@.wf(),
            progress@.length == length,
            progress@.block_size == block_size,
            forall|b: int| 0 <= b < progress@.blocks.len() ==> progress@.missing(b),
    {
        let count = if length % block_size == 0 {
            length / block_size
        } else {
            proof {
                lemma_block_bounds(length as int, block_size as int, 0);
            }
            length / block_size + 1
        };
        let mut blocks: Vec<Option<Block>> = Vec::new();
        let mut b: usize = 0;
        while b < count
            invariant
                b <= count,
                blocks@.len() == b,
                forall|i: int| 0 <= i < b ==> (#[trigger] blocks@[i]) is None,
            decreases count - b,
        {
            blocks.push(None);
            b += 1;
        }
        PieceProgress { length, block_size, blocks }
    }

    /// The number of blocks of the piece.
    pub fn n_blocks(&self) -> (count: usize)
        ensures
            count == self@.blocks.len(),
    {
        self.blocks.len()
    }

    /// The number of bytes of the piece.
    pub fn length(&self) -> (length: usize)
        ensures
            length == self@.length,
    {
        self.length
    }

    /// The offset in the piece at which the block `b` begins.
    pub fn block_begin(&self, b: usize) -> (begin: usize)
        requires
            self@.wf(),
            b < self@.blocks.len(),
        ensures
            begin == b * self@.block_size,
            begin < self@.length,
    {
        proof {
            lemma_block_bounds(self.length as int, self.block_size as int, b as int);
        }
        b * self.block_size
    }

    /// The number of bytes of the block `b`.
    pub fn block_length(&self, b: usize) -> (size: usize)
        requires
            self@.wf(),
            b < self@.blocks.len(),
        ensures
            size == block_length(self@.length as int, self@.block_size as int, b as int),
            0 < size <= self@.block_size,
    {
        proof {
            lemma_block_bounds(self.length as int, self.block_size as int, b as int);
        }
        let left = self.length - b * self.block_size;
        if left < self.block_size {
            left
        } else {
            self.block_size
        }
    }

    /// Whether the block `b` is missing. A place beyond the piece is not.
    pub fn is_missing(&self, b: usize) -> (missing: bool)
        ensures
            missing == self@.missing(b as int),
    {
        b < self.blocks.len() && self.blocks[b].is_none()
    }

    /// The place of the block that begins at `begin` and has `size` bytes,
    /// if such a block is wanted.
    pub fn wanted_block(&self, begin: usize, size: usize) -> (place: Option<usize>)
        requires
            self@.wf(),
        ensures
            place is Some <==> self@.wants(begin as int, size as int),
            place matches Some(b) ==> b == begin / self@.block_size,
    {
        if begin % self.block_size != 0 {
            return None;
        }
        let b = begin / self.block_size;
        if !self.is_missing(b) {
            return None;
        }
        if size != self.block_length(b) {
            return None;
        }
        Some(b)
    }

    /// Whether every block has arrived.
    pub fn is_complete(&self) -> (complete: bool)
        ensures
            complete == self@.complete(),
    {
        let count = self.blocks.len();
        let mut b: usize = 0;
        while b < count
            invariant
                b <= count,
                count == self.blocks@.len(),
                forall|i: int| 0 <= i < b ==> (#[trigger] self@.blocks[i]) is Some,
            decreases count - b,
        {
            if self.blocks[b].is_none() {
                assert(self@.blocks[b as int] is None);
                return false;
            }
            assert(self@.blocks[b as int] is Some);
            b += 1;
        }
        true
    }

    /// Whether a block that has arrived came from `peer`.
    pub fn supplied_by(&self, peer: usize) -> (found: bool)
        ensures
            found == self@.supplied_by(peer),
    {
        let count = self.blocks.len();
        let mut b: usize = 0;
        while b < count
            invariant
                b <= count,
                count == self.blocks@.len(),
                forall|i: int|
                    0 <= i < b ==> !((#[trigger] self@.blocks[i]) matches Some(block) && block.from
                        == peer),
            decreases count - b,
        {
            match &self.blocks[b] {
                Some(block) => {
                    if block.from == peer {
                        assert(self@.blocks[b as int] == Some(block@));
                        return true;
                    }
                    assert(self@.blocks[b as int] == Some(block@));
                },
                None => {
                    assert(self@.blocks[b as int] is None);
                },
            }
            b += 1;
        }
        false
    }

    /// Takes in the block `b`, sent by `from`.
    pub fn store(&mut self, b: usize, from: usize, data: Vec<u8>)
        requires
            old(self)@.wf(),
            old(self)@.missing(b as int),
            data@.len() == block_length(
                old(self)@.length as int,
                old(self)@.block_size as int,
                b as int,
            ),
        ensures
            final(self)@ == old(self)@.stored(b as int, from, data@),
            final(self)@.wf(),
    {
        self.blocks[b] = Some(Block { from, data });
        assert(self@.blocks =~= old(self)@.blocks.update(
            b as int,
            Some(BlockView { from, data: data@ }),
        ));
    }

    /// Throws away every block that has arrived.
    pub fn reset(&mut self)
        requires
            old(self)@.wf(),
        ensures
            final(self)@ == old(self)@.emptied(),
            final(self)@.wf(),
    {
        let count = self.blocks.len();
        let mut b: usize = 0;
        while b < count
            invariant
                b <= count,
                count == self.blocks@.len(),
                self.length == old(self).length,
                self.block_size == old(self).block_size,
                count == old(self)@.blocks.len(),
                forall|i: int| 0 <= i < b ==> (#[trigger] self.blocks@[i]) is None,
            decreases count - b,
        {
            self.blocks[b] = None;
            b += 1;
        }
        assert(self@.blocks =~= old(self)@.emptied().blocks);
    }

    /// Puts the blocks together to the bytes of the piece.
    pub fn assemble(&self) -> (bytes: Vec<u8>)
        requires
            self@.wf(),
            self@.complete(),
        ensures
            bytes@ == bytes_of(self@.blocks),
            bytes@.len() == self@.length,
    {
        let count = self.blocks.len();
        let mut bytes: Vec<u8> = Vec::new();
        let mut b: usize = 0;
        assert(self@.blocks.take(0) =~= Seq::<Option<BlockView>>::empty());
        while b < count
            invariant
                b <= count,
                count == self.blocks@.len(),
                self@.complete(),
                bytes@ == bytes_of(self@.blocks.take(b as int)),
            decreases count - b,
        {
            proof {
                assert(self@.blocks.take(b + 1).drop_last() =~= self@.blocks.take(b as int));
                assert(self@.blocks.take(b + 1).last() == self@.blocks[b as int]);
                assert(self@.blocks[b as int] is Some);
            }
            match &self.blocks[b] {
                Some(block) => {
                    assert(self@.blocks[b as int] == Some(block@));
                    let size = block.data.len();
                    let ghost before = bytes@;
                    let mut i: usize = 0;
                    while i < size
                        invariant
                            i <= size,
                            size == block.data@.len(),
                            bytes@ == before + block.data@.take(i as int),
                        decreases size - i,
                    {
                        bytes.push(block.data[i]);
                        i += 1;
                        assert(bytes@ =~= before + block.data@.take(i as int));
                    }
                    assert(block.data@.take(size as int) =~= block.data@);
                },
                None => {},
            }
            b += 1;
        }
        proof {
            assert(self@.blocks.take(count as int) =~= self@.blocks);
            lemma_bytes_of_prefix(self@, count as int);
        }
        bytes
    }
}

} // verus!
