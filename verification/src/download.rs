use vstd::prelude::*;

use vstd::arithmetic::div_mod::{lemma_fundamental_div_mod, lemma_mod_division_less_than_divisor};

use crate::peer::{frame_check, MessageType, PeerMessage, ProtocolError, ToPeerMessage};
use crate::util::be32_bytes;

verus! {

// ---------------------------------------------------------------------------
// Partitioning a length into pieces, and a piece into blocks
// ---------------------------------------------------------------------------

/// Bytes per block request: the fixed 16 KiB chunk of the wire protocol.
pub const BLOCK_CHUNK_SIZE: usize = 16384;

/// The number of chunks of size `chunk` that cover `total` bytes:
/// the ceiling of `total / chunk`.
pub open spec fn spec_chunk_count(total: int, chunk: int) -> int {
    (total + chunk - 1) / chunk
}

/// The size of chunk `i`: `chunk` for every chunk but the last, the
/// remainder for the last.
pub open spec fn spec_chunk_size(total: int, chunk: int, i: int) -> int {
    if i == spec_chunk_count(total, chunk) - 1 {
        total - chunk * (spec_chunk_count(total, chunk) - 1)
    } else {
        chunk
    }
}

/// The summed sizes of the first `n` chunks.
pub open spec fn sum_chunk_sizes(total: int, chunk: int, n: int) -> int
    decreases n,
{
    if n <= 0 {
        0
    } else {
        sum_chunk_sizes(total, chunk, n - 1) + spec_chunk_size(total, chunk, n - 1)
    }
}

/// The chunk count is at least one and brackets the total:
/// `chunk * (count - 1) < total <= chunk * count`.
pub proof fn lemma_chunk_count_bounds(total: int, chunk: int)
    requires
        total > 0,
        chunk > 0,
    ensures
        spec_chunk_count(total, chunk) >= 1,
        chunk * (spec_chunk_count(total, chunk) - 1) < total,
        total <= chunk * spec_chunk_count(total, chunk),
{
    let c = spec_chunk_count(total, chunk);
    let x = total + chunk - 1;
    lemma_fundamental_div_mod(x, chunk);
    lemma_mod_division_less_than_divisor(x, chunk);
    assert(x == chunk * c + x % chunk);
    assert(0 <= x % chunk < chunk);
    assert(c >= 1 && chunk * (c - 1) < total && total <= chunk * c) by (nonlinear_arith)
        requires
            total > 0,
            chunk > 0,
            total + chunk - 1 == chunk * c + (total + chunk - 1) % chunk,
            0 <= (total + chunk - 1) % chunk < chunk,
    ;
}

/// PARTITION LAW: for any positive total and chunk size, every chunk size
/// is positive and at most the chunk size, and the chunk sizes sum to the
/// total exactly. With the piece length as the chunk this covers cutting a
/// file into pieces; with the 16 KiB block chunk it covers cutting a piece
/// into blocks.
pub proof fn lemma_chunk_partition(total: int, chunk: int)
    requires
        total > 0,
        chunk > 0,
    ensures
        forall|i: int|
            0 <= i < spec_chunk_count(total, chunk) ==> 0 < #[trigger] spec_chunk_size(
                total,
                chunk,
                i,
            ) <= chunk,
        sum_chunk_sizes(total, chunk, spec_chunk_count(total, chunk)) == total,
{
    lemma_chunk_count_bounds(total, chunk);
    let c = spec_chunk_count(total, chunk);
    assert forall|i: int| 0 <= i < c implies 0 < #[trigger] spec_chunk_size(total, chunk, i) <= chunk by {
        if i == c - 1 {
            assert(spec_chunk_size(total, chunk, i) == total - chunk * (c - 1));
            assert(total - chunk * (c - 1) > 0);
            assert(total <= chunk * c);
            assert(chunk * c == chunk * (c - 1) + chunk) by (nonlinear_arith);
        }
    }
    lemma_sum_prefix(total, chunk, c - 1);
    assert(sum_chunk_sizes(total, chunk, c) == sum_chunk_sizes(total, chunk, c - 1)
        + spec_chunk_size(total, chunk, c - 1));
    assert(spec_chunk_size(total, chunk, c - 1) == total - chunk * (c - 1));
    assert((c - 1) * chunk == chunk * (c - 1)) by (nonlinear_arith);
}

/// The first `n` chunks (all full ones) sum to `n * chunk`.
proof fn lemma_sum_prefix(total: int, chunk: int, n: int)
    requires
        total > 0,
        chunk > 0,
        n <= spec_chunk_count(total, chunk) - 1,
    ensures
        n >= 0 ==> sum_chunk_sizes(total, chunk, n) == n * chunk,
    decreases n,
{
    if n > 0 {
        lemma_sum_prefix(total, chunk, n - 1);
        lemma_chunk_count_bounds(total, chunk);
        assert(n - 1 != spec_chunk_count(total, chunk) - 1);
        assert(spec_chunk_size(total, chunk, n - 1) == chunk);
        assert((n - 1) * chunk + chunk == n * chunk) by (nonlinear_arith);
        assert(sum_chunk_sizes(total, chunk, n) == sum_chunk_sizes(total, chunk, n - 1)
            + spec_chunk_size(total, chunk, n - 1));
    } else if n == 0 {
        assert(n * chunk == 0) by (nonlinear_arith)
            requires n == 0,
        ;
    }
}

/// The number of chunks of size `chunk` needed to cover `total` bytes.
pub fn chunk_count(total: usize, chunk: usize) -> (r: usize)
    requires
        chunk > 0,
    ensures
        r == spec_chunk_count(total as int, chunk as int),
{
    let q: usize = total / chunk;
    let rem: usize = total % chunk;
    proof {
        lemma_fundamental_div_mod(total as int, chunk as int);
        lemma_mod_division_less_than_divisor(total as int, chunk as int);
        lemma_fundamental_div_mod(total as int + chunk - 1, chunk as int);
        lemma_mod_division_less_than_divisor(total as int + chunk - 1, chunk as int);
        assert(rem == 0 ==> spec_chunk_count(total as int, chunk as int) == q) by (nonlinear_arith)
            requires
                chunk > 0,
                total == chunk * q + rem,
                0 <= rem < chunk,
                total + chunk - 1 == chunk * spec_chunk_count(total as int, chunk as int) + (total
                    + chunk - 1) % (chunk as int),
                0 <= (total + chunk - 1) % (chunk as int) < chunk,
        ;
        assert(rem != 0 ==> spec_chunk_count(total as int, chunk as int) == q + 1)
            by (nonlinear_arith)
            requires
                chunk > 0,
                total == chunk * q + rem,
                0 <= rem < chunk,
                total + chunk - 1 == chunk * spec_chunk_count(total as int, chunk as int) + (total
                    + chunk - 1) % (chunk as int),
                0 <= (total + chunk - 1) % (chunk as int) < chunk,
        ;
        assert(rem != 0 ==> q < total) by (nonlinear_arith)
            requires
                chunk > 0,
                total == chunk * q + rem,
                0 <= rem < chunk,
        ;
    }
    if rem == 0 {
        q
    } else {
        q + 1
    }
}

/// The size of chunk `i` when `total` bytes are cut into chunks of size
/// `chunk`: full for every chunk but the last.
pub fn chunk_size(total: usize, chunk: usize, i: usize) -> (r: usize)
    requires
        chunk > 0,
        total > 0,
        i < spec_chunk_count(total as int, chunk as int),
    ensures
        r == spec_chunk_size(total as int, chunk as int, i as int),
        0 < r <= chunk,
{
    proof {
        lemma_chunk_partition(total as int, chunk as int);
    }
    let count = chunk_count(total, chunk);
    if i == count - 1 {
        proof {
            lemma_chunk_count_bounds(total as int, chunk as int);
            assert(chunk * (count - 1) < total);
            assert(chunk * (count - 1) == (count - 1) * chunk) by (nonlinear_arith);
        }
        total - (count - 1) * chunk
    } else {
        chunk
    }
}


// ---------------------------------------------------------------------------
// The block-by-block piece download
// ---------------------------------------------------------------------------

/// The piece bytes accumulated after `nb` completed blocks: all full
/// blocks, or the whole piece once every block is in.
pub open spec fn received_len(piece_len: int, nb: int) -> int {
    if nb == spec_chunk_count(piece_len, BLOCK_CHUNK_SIZE as int) {
        piece_len
    } else {
        nb * (BLOCK_CHUNK_SIZE as int)
    }
}

/// Completing block `nb` grows the received length by that block's size.
proof fn lemma_received_step(piece_len: int, nb: int)
    requires
        piece_len > 0,
        0 <= nb < spec_chunk_count(piece_len, BLOCK_CHUNK_SIZE as int),
    ensures
        received_len(piece_len, nb) + spec_chunk_size(piece_len, BLOCK_CHUNK_SIZE as int, nb)
            == received_len(piece_len, nb + 1),
        received_len(piece_len, nb) >= 0,
{
    let c = BLOCK_CHUNK_SIZE as int;
    let count = spec_chunk_count(piece_len, c);
    lemma_chunk_count_bounds(piece_len, c);
    assert(nb * c >= 0) by (nonlinear_arith)
        requires nb >= 0, c > 0,
    ;
    if nb + 1 == count {
        assert(spec_chunk_size(piece_len, c, nb) == piece_len - c * (count - 1));
        assert(nb * c == c * nb) by (nonlinear_arith);
    } else {
        assert(spec_chunk_size(piece_len, c, nb) == c);
        assert(nb * c + c == (nb + 1) * c) by (nonlinear_arith);
    }
}

/// The byte offset of block `nb` stays within the piece.
proof fn lemma_block_offset(piece_len: int, nb: int)
    requires
        piece_len > 0,
        0 <= nb < spec_chunk_count(piece_len, BLOCK_CHUNK_SIZE as int),
    ensures
        0 <= nb * (BLOCK_CHUNK_SIZE as int),
        nb * (BLOCK_CHUNK_SIZE as int) + spec_chunk_size(piece_len, BLOCK_CHUNK_SIZE as int, nb)
            <= piece_len,
{
    let c = BLOCK_CHUNK_SIZE as int;
    let count = spec_chunk_count(piece_len, c);
    lemma_chunk_count_bounds(piece_len, c);
    lemma_chunk_partition(piece_len, c);
    assert(nb * c >= 0) by (nonlinear_arith)
        requires nb >= 0, c > 0,
    ;
    if nb == count - 1 {
        assert(nb * c == c * nb) by (nonlinear_arith);
    } else {
        assert(nb * c + c <= (count - 1) * c) by (nonlinear_arith)
            requires nb + 1 <= count - 1, c > 0,
        ;
        assert((count - 1) * c == c * (count - 1)) by (nonlinear_arith);
    }
}

/// The wire bytes of a block request: a 13-byte frame asking for `length`
/// bytes at offset `begin` of piece `index`.
pub open spec fn request_wire(index: int, begin: int, length: int) -> Seq<u8> {
    be32_bytes(13) + seq![6u8] + be32_bytes(index) + be32_bytes(begin) + be32_bytes(length)
}

/// The state of one piece download: the piece, how many of its blocks have
/// been received, and the bytes received so far. Blocks are requested
/// strictly in order, each fully received before the next.
#[derive(Debug)]
pub struct PieceDownload {
    pub piece_index: usize,
    pub piece_len: usize,
    pub next_block: usize,
    pub buf: Vec<u8>,
}

impl PieceDownload {
    /// The number of blocks of this piece.
    pub open spec fn blocks(&self) -> int {
        spec_chunk_count(self.piece_len as int, BLOCK_CHUNK_SIZE as int)
    }

    /// The number of blocks received so far.
    pub open spec fn blocks_done(&self) -> int {
        self.next_block as int
    }

    /// The piece bytes received so far.
    pub open spec fn received(&self) -> Seq<u8> {
        self.buf@
    }

    /// Well-formed: the piece and its index fit the 32-bit wire fields,
    /// the block cursor is within range, and the buffer holds exactly the
    /// bytes of the completed blocks.
    pub open spec fn wf(&self) -> bool {
        &&& 0 < self.piece_len <= u32::MAX
        &&& self.piece_index <= u32::MAX
        &&& 0 <= self.next_block <= self.blocks()
        &&& self.received().len() == received_len(self.piece_len as int, self.next_block as int)
    }

    /// Start a piece download with an empty buffer.
    pub fn new(piece_index: usize, piece_len: usize) -> (r: PieceDownload)
        requires
            0 < piece_len <= u32::MAX,
            piece_index <= u32::MAX,
        ensures
            r.wf(),
            r.piece_index == piece_index,
            r.piece_len == piece_len,
            r.blocks_done() == 0,
            r.received() == Seq::<u8>::empty(),
    {
        proof {
            assert(0 * (BLOCK_CHUNK_SIZE as int) == 0) by (nonlinear_arith);
            lemma_chunk_count_bounds(piece_len as int, BLOCK_CHUNK_SIZE as int);
        }
        PieceDownload { piece_index, piece_len, next_block: 0, buf: Vec::new() }
    }

    /// Whether every block of the piece has been received.
    pub fn is_complete(&self) -> (r: bool)
        requires
            self.wf(),
        ensures
            r == (self.blocks_done() == self.blocks()),
    {
        let count = chunk_count(self.piece_len, BLOCK_CHUNK_SIZE);
        self.next_block == count
    }

    /// The request frame for the next block: piece index, byte offset of
    /// the block, block size.
    pub fn next_request(&self) -> (r: Vec<u8>)
        requires
            self.wf(),
            self.blocks_done() < self.blocks(),
        ensures
            r@ == request_wire(
                self.piece_index as int,
                self.blocks_done() * (BLOCK_CHUNK_SIZE as int),
                spec_chunk_size(self.piece_len as int, BLOCK_CHUNK_SIZE as int, self.blocks_done()),
            ),
    {
        proof {
            lemma_block_offset(self.piece_len as int, self.next_block as int);
        }
        let bs = chunk_size(self.piece_len, BLOCK_CHUNK_SIZE, self.next_block);
        let begin = self.next_block * BLOCK_CHUNK_SIZE;
        let m = crate::peer::PeerMessage::new(
            crate::peer::MessageType::Request,
            self.piece_index,
            begin,
            bs,
        );
        let wire = m.to_message();
        proof {
            assert(m.msg().payload@.len() == 12);
            assert(wire@ =~= request_wire(
                self.piece_index as int,
                self.blocks_done() * (BLOCK_CHUNK_SIZE as int),
                spec_chunk_size(self.piece_len as int, BLOCK_CHUNK_SIZE as int, self.blocks_done()),
            ));
        }
        wire
    }

    /// The exact number of reply bytes to read for the next block: the
    /// 4-byte prefix, the id byte, the 8-byte index and begin header, and
    /// the block itself.
    pub fn expected_reply_len(&self) -> (r: usize)
        requires
            self.wf(),
            self.blocks_done() < self.blocks(),
        ensures
            r == 13 + spec_chunk_size(
                self.piece_len as int,
                BLOCK_CHUNK_SIZE as int,
                self.blocks_done(),
            ),
    {
        13 + chunk_size(self.piece_len, BLOCK_CHUNK_SIZE, self.next_block)
    }

    /// Take one block reply. A reply of exactly the expected length that
    /// frames a Piece message whose payload holds the 8-byte header plus
    /// the block appends the block to the buffer and advances the cursor;
    /// anything else leaves the state unchanged and reports why.
    pub fn on_block(&mut self, reply: &Vec<u8>) -> (r: Result<(), ProtocolError>)
        requires
            old(self).wf(),
            old(self).blocks_done() < old(self).blocks(),
        ensures
            ({
                let bs = spec_chunk_size(
                    old(self).piece_len as int,
                    BLOCK_CHUNK_SIZE as int,
                    old(self).blocks_done(),
                );
                match r {
                    Ok(()) => {
                        &&& reply@.len() == 13 + bs
                        &&& (frame_check(reply@) matches Ok((t, l)) && t == MessageType::Piece
                            && l == 9 + bs)
                        &&& final(self).wf()
                        &&& final(self).piece_index == old(self).piece_index
                        &&& final(self).piece_len == old(self).piece_len
                        &&& final(self).blocks_done() == old(self).blocks_done() + 1
                        &&& final(self).received() == old(self).received() + reply@.subrange(
                            13,
                            reply@.len() as int,
                        )
                    },
                    Err(e) => {
                        &&& *final(self) == *old(self)
                        &&& (match frame_check(reply@) {
                            Err(fe) => e == fe,
                            Ok((t, l)) => e == ProtocolError::UnexpectedMessage && (t
                                != MessageType::Piece || l != 9 + bs || reply@.len() != 13 + bs),
                        })
                    },
                }
            }),
    {
        let bs = chunk_size(self.piece_len, BLOCK_CHUNK_SIZE, self.next_block);
        match reply.to_peer_message() {
            Err(e) => Err(e),
            Ok(pm) => match pm {
                PeerMessage::Piece(m) => {
                    if reply.len() != 13 + bs {
                        return Err(ProtocolError::UnexpectedMessage);
                    }
                    if m.payload.len() != 8 + bs {
                        return Err(ProtocolError::UnexpectedMessage);
                    }
                    let ghost pre = self.buf@;
                    let mut i: usize = 8;
                    while i < m.payload.len()
                        invariant
                            8 <= i <= m.payload@.len(),
                            self.buf@ == pre + m.payload@.subrange(8, i as int),
                            self.piece_index == old(self).piece_index,
                            self.piece_len == old(self).piece_len,
                            self.next_block == old(self).next_block,
                        decreases m.payload.len() - i,
                    {
                        self.buf.push(m.payload[i]);
                        proof {
                            assert(self.buf@ =~= pre + m.payload@.subrange(8, i + 1));
                        }
                        i += 1;
                    }
                    proof {
                        lemma_received_step(self.piece_len as int, self.next_block as int);
                        assert(m.payload@.subrange(8, m.payload@.len() as int) =~= reply@.subrange(
                            13,
                            reply@.len() as int,
                        ));
                    }
                    self.next_block = self.next_block + 1;
                    Ok(())
                },
                _ => Err(ProtocolError::UnexpectedMessage),
            },
        }
    }

    /// The finished piece: exactly `piece_len` bytes once every block has
    /// been received.
    pub fn take_piece(self) -> (r: Vec<u8>)
        requires
            self.wf(),
            self.blocks_done() == self.blocks(),
        ensures
            r@ == self.received(),
            r@.len() == self.piece_len,
    {
        self.buf
    }
}

/// Accept a Bitfield message, or say what arrived instead.
pub fn expect_bitfield(reply: &Vec<u8>) -> (r: Result<(), ProtocolError>)
    ensures
        match r {
            Ok(()) => frame_check(reply@) matches Ok((t, l)) && t == MessageType::Bitfield,
            Err(e) => match frame_check(reply@) {
                Err(fe) => e == fe,
                Ok((t, l)) => t != MessageType::Bitfield && e == ProtocolError::UnexpectedMessage,
            },
        },
{
    match reply.to_peer_message() {
        Ok(pm) => match pm {
            PeerMessage::Bitfield(m) => Ok(()),
            _ => Err(ProtocolError::UnexpectedMessage),
        },
        Err(e) => Err(e),
    }
}

/// Accept an Unchoke message, or say what arrived instead.
pub fn expect_unchoke(reply: &Vec<u8>) -> (r: Result<(), ProtocolError>)
    ensures
        match r {
            Ok(()) => frame_check(reply@) matches Ok((t, l)) && t == MessageType::Unchoke,
            Err(e) => match frame_check(reply@) {
                Err(fe) => e == fe,
                Ok((t, l)) => t != MessageType::Unchoke && e == ProtocolError::UnexpectedMessage,
            },
        },
{
    match reply.to_peer_message() {
        Ok(pm) => match pm {
            PeerMessage::Unchoke(m) => Ok(()),
            _ => Err(ProtocolError::UnexpectedMessage),
        },
        Err(e) => Err(e),
    }
}

} // verus!
