//! One piece on its way from a peer: which blocks have been asked for, which
//! have arrived, and the bytes so far.

use vstd::prelude::*;

use crate::error::PeerError;
use crate::peer::message::BLOCK_SIZE;

verus! {

/// Longest piece that can be asked for block by block: the start of a block is
/// a 32-bit number.
pub const MAX_PIECE_LEN: u64 = 0x1_0000_0000;

/// The download of one piece.
pub struct PieceDownload {
    index: u32,
    data: Vec<u8>,
    received: Vec<bool>,
    blocks_done: usize,
    next_request: usize,
}

/// The content of a [`PieceDownload`].
#[verifier::ext_equal]
pub struct Blocks {
    pub index: u32,
    pub data: Seq<u8>,
    /// Which blocks have arrived.
    pub received: Seq<bool>,
    /// The next block to ask for.
    pub next_request: int,
}

/// How many blocks a piece has.
pub open spec fn block_count(len: int) -> int {
    (len + BLOCK_SIZE - 1) / BLOCK_SIZE as int
}

/// How many of some flags are set.
pub open spec fn set_flags(flags: Seq<bool>) -> int
    decreases flags.len(),
{
    if flags.len() == 0 {
        0
    } else {
        set_flags(flags.drop_last()) + if flags.last() {
            1int
        } else {
            0int
        }
    }
}

/// Data with some bytes replaced from a position on; what does not fit is left out.
pub open spec fn overwritten(data: Seq<u8>, at: int, new: Seq<u8>) -> Seq<u8> {
    Seq::new(
        data.len(),
        |i: int|
            if at <= i < at + new.len() {
                new[i - at]
            } else {
                data[i]
            },
    )
}

impl Blocks {
    /// A piece of which nothing has arrived.
    pub open spec fn empty(index: u32, len: int) -> Blocks {
        Blocks {
            index,
            data: Seq::new(len as nat, |i: int| 0u8),
            received: Seq::new(block_count(len) as nat, |i: int| false),
            next_request: 0,
        }
    }

    /// Whether every block has arrived.
    pub open spec fn complete(self) -> bool {
        forall|i: int| 0 <= i < self.received.len() ==> #[trigger] self.received[i]
    }

    /// The next request: where the block starts and how long it is, while fewer
    /// than `pipeline` blocks are on their way.
    pub open spec fn request(self, pipeline: int) -> Option<(u32, u32)> {
        if self.next_request < self.received.len() && 0 <= self.next_request - set_flags(
            self.received,
        ) < pipeline {
            let begin = self.next_request * BLOCK_SIZE;
            Some(
                (
                    begin as u32,
                    if self.next_request == self.received.len() - 1 {
                        (self.data.len() - begin) as u32
                    } else {
                        BLOCK_SIZE
                    },
                ),
            )
        } else {
            None
        }
    }

    /// The piece after its next block was asked for.
    pub open spec fn requested(self) -> Blocks {
        Blocks { next_request: self.next_request + 1, ..self }
    }

    /// The piece after data for it arrived. Data for a block that is there
    /// already, or for no block, is ignored.
    pub open spec fn store(self, begin: u32, new: Seq<u8>) -> std::result::Result<
        Blocks,
        PeerError,
    > {
        let block = begin as int / BLOCK_SIZE as int;
        if block >= self.received.len() || self.received[block] {
            Ok(self)
        } else if begin > self.data.len() {
            Err(PeerError::BlockOutOfBounds)
        } else {
            Ok(
                Blocks {
                    data: overwritten(self.data, begin as int, new),
                    received: self.received.update(block, true),
                    ..self
                },
            )
        }
    }
}

proof fn lemma_set_flags(flags: Seq<bool>)
    ensures
        0 <= set_flags(flags) <= flags.len(),
        set_flags(flags) == flags.len() <==> forall|i: int|
            0 <= i < flags.len() ==> #[trigger] flags[i],
        (forall|i: int| 0 <= i < flags.len() ==> !#[trigger] flags[i]) ==> set_flags(flags) == 0,
    decreases flags.len(),
{
    if flags.len() > 0 {
        let head = flags.drop_last();
        lemma_set_flags(head);
        assert(forall|i: int| 0 <= i < head.len() ==> head[i] == flags[i]);
        assert(flags[flags.len() - 1] == flags.last());
    }
}

proof fn lemma_set_flags_update(flags: Seq<bool>, i: int)
    requires
        0 <= i < flags.len(),
        !flags[i],
    ensures
        set_flags(flags.update(i, true)) == set_flags(flags) + 1,
    decreases flags.len(),
{
    let new = flags.update(i, true);
    if i < flags.len() - 1 {
        lemma_set_flags_update(flags.drop_last(), i);
        assert(new.drop_last() =~= flags.drop_last().update(i, true));
    } else {
        assert(new.drop_last() =~= flags.drop_last());
    }
}

impl View for PieceDownload {
    type V = Blocks;

    closed spec fn view(&self) -> Blocks {
        Blocks {
            index: self.index,
            data: self.data@,
            received: self.received@,
            next_request: self.next_request as int,
        }
    }
}

impl PieceDownload {
    /// The counts fit the blocks.
    pub closed spec fn wf(&self) -> bool {
        &&& self.data@.len() <= MAX_PIECE_LEN
        &&& self.received@.len() == block_count(self.data@.len() as int)
        &&& self.blocks_done == set_flags(self.received@)
        &&& self.next_request <= self.received@.len()
    }

    /// Begin to download a piece.
    pub fn new(index: u32, len: usize) -> (d: PieceDownload)
        requires
            len <= MAX_PIECE_LEN,
        ensures
            d.wf(),
            d@ == Blocks::empty(index, len as int),
    {
        let size: u64 = BLOCK_SIZE as u64;
        let blocks: usize = ((len as u64 + (size - 1)) / size) as usize;
        let mut data: Vec<u8> = Vec::new();
        while data.len() < len
            invariant
                data@ == Seq::new(data@.len(), |i: int| 0u8),
                data@.len() <= len,
            decreases len - data@.len(),
        {
            data.push(0);
            assert(data@ =~= Seq::new(data@.len(), |i: int| 0u8));
        }
        let mut received: Vec<bool> = Vec::new();
        while received.len() < blocks
            invariant
                received@ == Seq::new(received@.len(), |i: int| false),
                received@.len() <= blocks,
            decreases blocks - received@.len(),
        {
            received.push(false);
            assert(received@ =~= Seq::new(received@.len(), |i: int| false));
        }
        proof {
            lemma_set_flags(received@);
        }
        PieceDownload { index, data, received, blocks_done: 0, next_request: 0 }
    }

    /// The piece that is downloaded.
    pub fn index(&self) -> (i: u32)
        ensures
            i == self@.index,
    {
        self.index
    }

    /// Whether every block has arrived.
    pub fn is_complete(&self) -> (r: bool)
        requires
            self.wf(),
        ensures
            r == self@.complete(),
    {
        proof {
            lemma_set_flags(self@.received);
        }
        self.blocks_done == self.received.len()
    }

    /// The next block to ask for, while fewer than `pipeline` are on their way.
    pub fn next_request(&mut self, pipeline: usize) -> (r: Option<(u32, u32)>)
        requires
            old(self).wf(),
        ensures
            final(self).wf(),
            r == old(self)@.request(pipeline as int),
            final(self)@ == if r is Some {
                old(self)@.requested()
            } else {
                old(self)@
            },
    {
        let k: usize = self.next_request;
        if k < self.received.len() && k >= self.blocks_done && k - self.blocks_done < pipeline {
            let begin: u32 = (k as u64 * BLOCK_SIZE as u64) as u32;
            let length: u32 = if k == self.received.len() - 1 {
                (self.data.len() as u64 - begin as u64) as u32
            } else {
                BLOCK_SIZE
            };
            self.next_request = k + 1;
            Some((begin, length))
        } else {
            None
        }
    }

    /// Take in data that arrived for this piece.
    pub fn on_block(&mut self, begin: u32, new: &[u8]) -> (r: std::result::Result<(), PeerError>)
        requires
            old(self).wf(),
        ensures
            final(self).wf(),
            match old(self)@.store(begin, new@) {
                Ok(next) => r is Ok && final(self)@ == next,
                Err(e) => r == Err::<(), PeerError>(e) && final(self)@ == old(self)@,
            },
    {
        let block: usize = (begin / BLOCK_SIZE) as usize;
        if block >= self.received.len() || self.received[block] {
            return Ok(());
        }
        if begin as u64 > self.data.len() as u64 {
            return Err(PeerError::BlockOutOfBounds);
        }
        let at: usize = begin as usize;
        let room: usize = self.data.len() - at;
        let n: usize = if new.len() <= room {
            new.len()
        } else {
            room
        };
        let ghost before = self.data@;
        let mut i: usize = 0;
        while i < n
            invariant
                i <= n <= new.len(),
                at + n <= self.data.len(),
                self.data@.len() == before.len(),
                self.received == old(self).received,
                self.index == old(self).index,
                self.blocks_done == old(self).blocks_done,
                self.next_request == old(self).next_request,
                self.data@ == overwritten(before, at as int, new@.take(i as int)),
            decreases n - i,
        {
            self.data[at + i] = new[i];
            i = i + 1;
            assert(self.data@ =~= overwritten(before, at as int, new@.take(i as int)));
        }
        proof {
            assert(self.data@ =~= overwritten(before, at as int, new@));
            lemma_set_flags_update(self.received@, block as int);
            lemma_set_flags(self.received@.update(block as int, true));
        }
        self.received[block] = true;
        self.blocks_done = self.blocks_done + 1;
        Ok(())
    }

    /// The bytes of the piece so far.
    pub fn data(&self) -> (r: &[u8])
        ensures
            r@ == self@.data,
    {
        self.data.as_slice()
    }

    /// The bytes of the piece.
    pub fn into_data(self) -> (r: Vec<u8>)
        ensures
            r@ == self@.data,
    {
        self.data
    }
}

// Laws

/// The end of a block.
pub open spec fn block_end(len: int, block: int) -> int {
    if (block + 1) * BLOCK_SIZE <= len {
        (block + 1) * BLOCK_SIZE
    } else {
        len
    }
}

/// The bytes of a block of a piece.
pub open spec fn block_of(piece: Seq<u8>, block: int) -> Seq<u8> {
    piece.subrange(block * BLOCK_SIZE, block_end(piece.len() as int, block))
}

/// Whether the blocks that have arrived hold the bytes of the piece.
pub open spec fn agrees(b: Blocks, piece: Seq<u8>) -> bool {
    &&& b.data.len() == piece.len()
    &&& b.received.len() == block_count(piece.len() as int)
    &&& forall|i: int|
        0 <= i < piece.len() && b.received[i / BLOCK_SIZE as int] ==> #[trigger] b.data[i] == piece[i]
}

/// The requests of a piece are its blocks: they follow each other without a gap.
pub proof fn lemma_requests_are_blocks(b: Blocks, pipeline: int)
    requires
        b.received.len() == block_count(b.data.len() as int),
        b.data.len() <= MAX_PIECE_LEN,
        0 <= b.next_request,
    ensures
        b.request(pipeline) matches Some((begin, length)) ==> {
            &&& begin == b.next_request * BLOCK_SIZE
            &&& begin + length == block_end(b.data.len() as int, b.next_request)
            &&& 0 < length <= BLOCK_SIZE
        },
{
}

/// Every block that a peer sends as it was asked for brings the bytes of the
/// piece, and when every block has arrived the piece is there.
pub proof fn lemma_blocks_assemble(b: Blocks, piece: Seq<u8>, block: int)
    requires
        agrees(b, piece),
        0 <= block < b.received.len(),
        piece.len() <= MAX_PIECE_LEN,
    ensures
        b.store((block * BLOCK_SIZE) as u32, block_of(piece, block)) matches Ok(next) && agrees(
            next,
            piece,
        ) && next.received[block],
        b.complete() ==> b.data == piece,
{
    let begin = block * BLOCK_SIZE;
    let new = block_of(piece, block);
    assert(begin as int / BLOCK_SIZE as int == block);
    assert(begin < piece.len());
    if !b.received[block] {
        let next = b.store(begin as u32, new).unwrap();
        assert forall|i: int|
            0 <= i < piece.len() && next.received[i / BLOCK_SIZE as int] implies #[trigger] next.data[i]
            == piece[i] by {
            if i / BLOCK_SIZE as int != block {
                assert(b.received[i / BLOCK_SIZE as int]);
                assert(b.data[i] == piece[i]);
                assert(!(begin <= i < begin + new.len()));
            } else {
                assert(begin <= i < begin + new.len());
            }
        }
    }
    if b.complete() {
        assert forall|i: int| 0 <= i < piece.len() implies b.data[i] == piece[i] by {
            assert(0 <= i / (BLOCK_SIZE as int) < b.received.len());
            assert(b.received[i / BLOCK_SIZE as int]);
        }
        assert(b.data =~= piece);
    }
}

/// A piece of which nothing has arrived agrees with every piece of its length.
pub proof fn lemma_empty_agrees(index: u32, piece: Seq<u8>)
    ensures
        agrees(Blocks::empty(index, piece.len() as int), piece),
{
    let b = Blocks::empty(index, piece.len() as int);
    assert forall|i: int|
        0 <= i < piece.len() && b.received[i / BLOCK_SIZE as int] implies #[trigger] b.data[i]
        == piece[i] by {
        assert(0 <= i / (BLOCK_SIZE as int) < b.received.len());
    }
}

/// A block is asked for exactly while there is one that was not asked for and
/// fewer than `pipeline` of those that were have not arrived; asking for it does
/// not change what has arrived.
pub proof fn lemma_pipeline_is_filled(b: Blocks, pipeline: int)
    requires
        set_flags(b.received) <= b.next_request,
    ensures
        b.request(pipeline) is Some <==> b.next_request < b.received.len() && b.next_request
            < set_flags(b.received) + pipeline,
        b.requested().next_request == b.next_request + 1,
        b.requested().data == b.data,
        b.requested().received == b.received,
        b.requested().index == b.index,
{
}

/// Data that arrives changes the bytes from where it begins and no others, and
/// counts for the block that it begins in; what has arrived stays as it is.
pub proof fn lemma_store_is_local(b: Blocks, begin: u32, new: Seq<u8>, i: int, k: int)
    requires
        b.received.len() == block_count(b.data.len() as int),
        0 <= i < b.data.len(),
        0 <= k < b.received.len(),
    ensures
        b.store(begin, new) matches Ok(c) ==> {
            &&& c.index == b.index
            &&& c.next_request == b.next_request
            &&& c.data.len() == b.data.len()
            &&& c.received.len() == b.received.len()
            &&& c.received[k] == (b.received[k] || k * BLOCK_SIZE <= begin < (k + 1) * BLOCK_SIZE)
            &&& c.data[i] != b.data[i] ==> begin <= i < begin + new.len() && c.data[i] == new[i
                - begin]
            &&& begin <= i < begin + new.len() && begin / BLOCK_SIZE < b.received.len()
                && !b.received[begin as int / BLOCK_SIZE as int] ==> c.data[i] == new[i - begin]
        },
        b.store(begin, new) is Err <==> begin > b.data.len() && begin / BLOCK_SIZE
            < b.received.len() && !b.received[begin as int / BLOCK_SIZE as int],
        b.store(begin, new) matches Err(e) ==> e == PeerError::BlockOutOfBounds,
{
    let block = begin as int / BLOCK_SIZE as int;
    assert(k == block <==> k * BLOCK_SIZE <= begin < (k + 1) * BLOCK_SIZE);
}

/// Blocks of sixteen kibibytes are asked for, and the last one is what is left
/// of the piece.
pub proof fn lemma_block_length(b: Blocks, pipeline: int)
    requires
        b.received.len() == block_count(b.data.len() as int),
        b.data.len() <= MAX_PIECE_LEN,
        0 <= b.next_request,
    ensures
        b.request(pipeline) matches Some((begin, length)) ==> begin == 16384 * b.next_request,
        b.request(pipeline) matches Some((begin, length)) ==> (if b.next_request
            == b.received.len() - 1 {
            begin + length == b.data.len()
        } else {
            length == 16384 && begin + length < b.data.len()
        }),
{
    let n = b.received.len() as int;
    let len = b.data.len() as int;
    assert(n > 0 ==> (n - 1) * 16384 < len <= n * 16384);
    if let Some((begin, length)) = b.request(pipeline) {
        lemma_requests_are_blocks(b, pipeline);
        assert(begin == b.next_request * 16384);
        if b.next_request < n - 1 {
            assert((b.next_request + 1) * 16384 <= (n - 1) * 16384);
            assert(length == 16384);
        } else {
            assert(begin + length == len);
        }
    }
}

} // verus!
