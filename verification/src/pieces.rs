//! Piece download bookkeeping: sizing a piece, cutting it into 16 KiB block
//! requests, reassembling the blocks a peer returns (in any order), and
//! holding the result to its expected digest.
use vstd::prelude::*;

use crate::bencode::bytes_eq;
use crate::errors::TorrentError;
use crate::numbers::{be32, be32_val, be32_read, ceil_div, lemma_ceil_div, u32_to_be};
use crate::sha1_it;
use crate::sha1_of;

verus! {

/// Blocks are requested in chunks of at most 16 KiB.
pub const BLOCK_SIZE: u32 = 16384;

/// The actual length of piece `idx`: nominal, except that the last piece
/// holds only what remains of the file.
pub open spec fn spec_piece_size(length: int, piece_length: int, idx: int) -> int {
    if length - idx * piece_length < piece_length {
        length - idx * piece_length
    } else {
        piece_length
    }
}

/// Compute a piece's actual length; it is always between 1 and the nominal
/// piece length.
pub fn piece_size(length: usize, piece_length: usize, piece_index: usize) -> (r: usize)
    requires
        length >= 1,
        piece_length >= 1,
        piece_index < ceil_div(length as int, piece_length as int),
    ensures
        r == spec_piece_size(length as int, piece_length as int, piece_index as int),
        1 <= r <= piece_length,
{
    proof {
        lemma_ceil_div(length as int, piece_length as int, piece_index as int);
    }
    let consumed = piece_index * piece_length;
    let rest = length - consumed;
    if rest < piece_length {
        rest
    } else {
        piece_length
    }
}

/// One block of a piece: at most 16 KiB starting at `begin_offset`.
#[derive(Debug, PartialEq, Eq, Structural, Clone, Copy)]
pub struct BlockRequest {
    pub piece_index: u32,
    pub begin_offset: u32,
    pub length: u32,
}

/// The `i`-th block request of a piece of `piece_size` bytes.
pub open spec fn spec_block(piece_index: u32, piece_size: int, i: int) -> BlockRequest {
    BlockRequest {
        piece_index,
        begin_offset: (i * BLOCK_SIZE) as u32,
        length: (if piece_size - i * BLOCK_SIZE < BLOCK_SIZE {
            piece_size - i * BLOCK_SIZE
        } else {
            BLOCK_SIZE as int
        }) as u32,
    }
}

/// Cut a piece into block requests: full 16 KiB blocks, then the remainder.
pub fn block_requests(piece_index: u32, piece_size: u32) -> (r: Vec<BlockRequest>)
    requires
        piece_size >= 1,
    ensures
        r@.len() == ceil_div(piece_size as int, BLOCK_SIZE as int),
        forall|i: int|
            0 <= i < r@.len() ==> r@[i] == spec_block(piece_index, piece_size as int, i),
{
    let count = piece_size / BLOCK_SIZE + (if piece_size % BLOCK_SIZE > 0 {
        1u32
    } else {
        0u32
    });
    proof {
        assert(count == ceil_div(piece_size as int, BLOCK_SIZE as int));
    }
    let mut r: Vec<BlockRequest> = Vec::new();
    let mut i: u32 = 0;
    #[verifier::loop_isolation(false)]
    while i < count
        invariant
            i <= count,
            r@.len() == i as int,
            forall|j: int|
                0 <= j < i as int ==> r@[j] == spec_block(piece_index, piece_size as int, j),
        decreases count - i,
    {
        proof {
            lemma_ceil_div(piece_size as int, BLOCK_SIZE as int, i as int);
        }
        let begin = i * BLOCK_SIZE;
        let remaining = piece_size - begin;
        let len = if remaining < BLOCK_SIZE {
            remaining
        } else {
            BLOCK_SIZE
        };
        r.push(BlockRequest { piece_index, begin_offset: begin, length: len });
        i = i + 1;
    }
    r
}

/// The 12-byte payload of a Request message: piece index, begin offset and
/// block length, each 4 bytes big-endian.
pub fn request_payload(req: &BlockRequest) -> (r: Vec<u8>)
    ensures
        r@ == be32(req.piece_index) + be32(req.begin_offset) + be32(req.length),
        r@.len() == 12,
{
    let mut out = u32_to_be(req.piece_index);
    let mut mid = u32_to_be(req.begin_offset);
    let mut tail = u32_to_be(req.length);
    out.append(&mut mid);
    out.append(&mut tail);
    proof {
        assert(out@ =~= be32(req.piece_index) + be32(req.begin_offset) + be32(req.length));
    }
    out
}

/// Split a Piece message payload into piece index, begin offset and block
/// bytes; exactly the payloads of at least 8 bytes are accepted.
pub fn parse_piece_payload(payload: &Vec<u8>) -> (r: Result<(u32, u32, Vec<u8>), TorrentError>)
    ensures
        r is Ok <==> payload@.len() >= 8,
        match r {
            Ok((idx, begin, block)) => {
                &&& idx == be32_val(payload@.subrange(0, 4))
                &&& begin == be32_val(payload@.subrange(4, 8))
                &&& block@ == payload@.skip(8)
            },
            Err(e) => e == TorrentError::UnexpectedMessage,
        },
{
    if payload.len() < 8 {
        return Err(TorrentError::UnexpectedMessage);
    }
    let idx = be32_read(payload, 0);
    let begin = be32_read(payload, 4);
    let mut block: Vec<u8> = Vec::new();
    let mut i: usize = 8;
    #[verifier::loop_isolation(false)]
    while i < payload.len()
        invariant
            8 <= i <= payload.len(),
            block@ =~= payload@.subrange(8, i as int),
        decreases payload.len() - i,
    {
        block.push(payload[i]);
        proof {
            assert(payload@.subrange(8, i + 1int) =~= payload@.subrange(8, i as int).push(
                payload@[i as int],
            ));
        }
        i = i + 1;
    }
    proof {
        assert(payload@.subrange(8, payload@.len() as int) =~= payload@.skip(8));
    }
    Ok((idx, begin, block))
}

/// Whether offset `o` of the piece falls inside block `b`.
pub open spec fn in_block(b: (u32, Vec<u8>), o: int) -> bool {
    b.0 <= o < b.0 + b.1@.len()
}

/// Whether some block holds offset `o`.
pub open spec fn covered(blocks: Seq<(u32, Vec<u8>)>, o: int) -> bool {
    exists|i: int| 0 <= i < blocks.len() && in_block(#[trigger] blocks[i], o)
}

/// No offset falls inside two distinct blocks.
pub open spec fn no_overlap(blocks: Seq<(u32, Vec<u8>)>) -> bool {
    forall|i: int, j: int, o: int|
        #![trigger in_block(blocks[i], o), in_block(blocks[j], o)]
        0 <= i < j < blocks.len() ==> !(in_block(blocks[i], o) && in_block(blocks[j], o))
}

/// Whether every block lies inside a piece of `size` bytes.
pub open spec fn blocks_in_bounds(blocks: Seq<(u32, Vec<u8>)>, size: int) -> bool {
    forall|i: int|
        0 <= i < blocks.len() ==> (#[trigger] blocks[i]).0 + blocks[i].1@.len() <= size
}

/// Whether the piece bytes `out` hold block `b` at its begin offset.
pub open spec fn block_placed(out: Seq<u8>, b: (u32, Vec<u8>)) -> bool {
    &&& b.0 + b.1@.len() <= out.len()
    &&& out.subrange(b.0 as int, b.0 + b.1@.len()) == b.1@
}

/// Reassemble a piece of `piece_size` bytes from `(begin offset, bytes)`
/// blocks, in whatever order they arrived.  Succeeds exactly when the blocks
/// fall inside the piece, never overlap, and leave no gap; the result then
/// holds every block at its offset.
#[verifier::rlimit(100)]
pub fn assemble_piece(blocks: &Vec<(u32, Vec<u8>)>, piece_size: usize) -> (r: Option<Vec<u8>>)
    ensures
        r is Some <==> (blocks_in_bounds(blocks@, piece_size as int) && no_overlap(blocks@)
            && (forall|o: int| 0 <= o < piece_size ==> covered(blocks@, o))),
        match r {
            Some(p) => {
                &&& p@.len() == piece_size
                &&& forall|i: int| 0 <= i < blocks@.len() ==> block_placed(p@, #[trigger] blocks@[i])
            },
            None => true,
        },
{
    let mut out: Vec<u8> = Vec::new();
    let mut cov: Vec<bool> = Vec::new();
    while out.len() < piece_size
        invariant
            out@.len() == cov@.len() <= piece_size,
            forall|o: int| 0 <= o < cov@.len() ==> !(#[trigger] cov@[o]),
        decreases piece_size - out.len(),
    {
        out.push(0);
        cov.push(false);
    }
    let mut k: usize = 0;
    #[verifier::loop_isolation(false)]
    while k < blocks.len()
        invariant
            k <= blocks.len(),
            out@.len() == piece_size,
            cov@.len() == piece_size,
            blocks_in_bounds(blocks@.take(k as int), piece_size as int),
            no_overlap(blocks@.take(k as int)),
            forall|o: int|
                0 <= o < piece_size ==> #[trigger] cov@[o] == covered(blocks@.take(k as int), o),
            forall|i: int|
                0 <= i < k ==> block_placed(out@, #[trigger] blocks@[i]),
        decreases blocks.len() - k,
    {
        let ghost prev = blocks@.take(k as int);
        proof {
            assert(blocks@.take(k + 1int) =~= prev.push(blocks@[k as int]));
        }
        let begin_u32 = blocks[k].0;
        let blen = blocks[k].1.len();
        if begin_u32 as usize > piece_size || blen > piece_size - begin_u32 as usize {
            proof {
                assert(!blocks_in_bounds(blocks@, piece_size as int)) by {
                    assert(blocks@[k as int].0 + blocks@[k as int].1@.len() > piece_size);
                }
            }
            return None;
        }
        let begin = begin_u32 as usize;
        let mut t: usize = 0;
        #[verifier::loop_isolation(false)]
        while t < blen
            invariant
                t <= blen,
                begin + blen <= piece_size,
                out@.len() == piece_size,
                cov@.len() == piece_size,
                blen == blocks@[k as int].1@.len(),
                begin == blocks@[k as int].0,
                forall|o: int|
                    0 <= o < piece_size ==> #[trigger] cov@[o] == (covered(prev, o) || (begin <= o
                        < begin + t)),
                forall|o: int| begin <= o < begin + t ==> !covered(prev, o),
                forall|i: int| 0 <= i < k ==> block_placed(out@, #[trigger] blocks@[i]),
                forall|u: int|
                    0 <= u < t ==> out@[begin + u] == #[trigger] blocks@[k as int].1@[u],
            decreases blen - t,
        {
            if cov[begin + t] {
                proof {
                    let o = begin + t as int;
                    assert(covered(prev, o));
                    let w = choose|i: int| 0 <= i < prev.len() && in_block(#[trigger] prev[i], o);
                    assert(in_block(blocks@[w], o));
                    assert(in_block(blocks@[k as int], o));
                    assert(!no_overlap(blocks@));
                }
                return None;
            }
            let ghost old_out = out@;
            cov[begin + t] = true;
            out[begin + t] = blocks[k].1[t];
            proof {
                assert forall|i: int| 0 <= i < k implies block_placed(
                    out@,
                    #[trigger] blocks@[i],
                ) by {
                    assert(block_placed(old_out, blocks@[i]));
                    if in_block(blocks@[i], begin + t as int) {
                        assert(prev[i] == blocks@[i]);
                        assert(in_block(prev[i], begin + t as int));
                        assert(covered(prev, begin + t as int));
                        assert(false);
                    }
                    assert(out@.subrange(
                        blocks@[i].0 as int,
                        blocks@[i].0 + blocks@[i].1@.len(),
                    ) =~= old_out.subrange(blocks@[i].0 as int, blocks@[i].0 + blocks@[i].1@.len()));
                }
            }
            t = t + 1;
        }
        proof {
            let b = blocks@[k as int];
            assert forall|i: int, j: int, o: int|
                #![trigger in_block(prev.push(b)[i], o), in_block(prev.push(b)[j], o)]
                0 <= i < j < prev.push(b).len() implies !(in_block(prev.push(b)[i], o) && in_block(
                prev.push(b)[j],
                o,
            )) by {
                if j == prev.len() {
                    if in_block(prev[i], o) && in_block(b, o) {
                        assert(covered(prev, o));
                        assert(false);
                    }
                }
            }
            assert(block_placed(out@, b)) by {
                assert(out@.subrange(b.0 as int, b.0 + b.1@.len()) =~= b.1@);
            }
            assert forall|o: int| 0 <= o < piece_size implies #[trigger] cov@[o] == covered(
                prev.push(b),
                o,
            ) by {
                if covered(prev, o) {
                    let w = choose|i: int| 0 <= i < prev.len() && in_block(#[trigger] prev[i], o);
                    assert(in_block(prev.push(b)[w], o));
                } else if begin <= o < begin + blen {
                    assert(in_block(prev.push(b)[prev.len() as int], o));
                } else if covered(prev.push(b), o) {
                    let w = choose|i: int|
                        0 <= i < prev.push(b).len() && in_block(#[trigger] prev.push(b)[i], o);
                    if w < prev.len() {
                        assert(in_block(prev[w], o));
                        assert(covered(prev, o));
                    }
                }
            }
        }
        k = k + 1;
    }
    proof {
        assert(blocks@.take(blocks@.len() as int) =~= blocks@);
    }
    let mut o: usize = 0;
    #[verifier::loop_isolation(false)]
    while o < piece_size
        invariant
            o <= piece_size,
            out@.len() == piece_size,
            cov@.len() == piece_size,
            forall|u: int| 0 <= u < o ==> covered(blocks@, u),
            forall|u: int| 0 <= u < piece_size ==> #[trigger] cov@[u] == covered(blocks@, u),
            blocks_in_bounds(blocks@, piece_size as int),
            no_overlap(blocks@),
            forall|i: int| 0 <= i < blocks@.len() ==> block_placed(out@, #[trigger] blocks@[i]),
        decreases piece_size - o,
    {
        if !cov[o] {
            return None;
        }
        o = o + 1;
    }
    Some(out)
}

/// Whether `piece` hashes to the digest `expected`.
pub fn verify_piece(piece: &Vec<u8>, expected: &Vec<u8>) -> (r: bool)
    ensures
        r == (sha1_of(piece@) == expected@),
{
    let digest = sha1_it(piece);
    bytes_eq(&digest, expected)
}

/// Reassemble a piece from its blocks and hold it to the expected digest:
/// blocks that do not tile the piece fail as an unexpected message, a wrong
/// digest as a hash mismatch.
pub fn finish_piece(blocks: &Vec<(u32, Vec<u8>)>, piece_size: usize, expected_hash: &Vec<u8>) -> (r:
    Result<Vec<u8>, TorrentError>)
    ensures
        r is Ok <==> (blocks_in_bounds(blocks@, piece_size as int) && no_overlap(blocks@) && (
        forall|o: int| 0 <= o < piece_size ==> covered(blocks@, o)) && sha1_of(
            assembled_bytes(blocks@, piece_size as int),
        ) == expected_hash@),
        match r {
            Ok(p) => {
                &&& p@.len() == piece_size
                &&& forall|i: int| 0 <= i < blocks@.len() ==> block_placed(p@, #[trigger] blocks@[i])
                &&& sha1_of(p@) == expected_hash@
            },
            Err(e) => e == TorrentError::UnexpectedMessage || e == TorrentError::PieceHashMismatch,
        },
{
    match assemble_piece(blocks, piece_size) {
        Some(p) => {
            proof {
                lemma_assemble_witness(blocks@, piece_size as int, p@);
            }
            if verify_piece(&p, expected_hash) {
                Ok(p)
            } else {
                Err(TorrentError::PieceHashMismatch)
            }
        },
        None => Err(TorrentError::UnexpectedMessage),
    }
}

/// The piece bytes that hold every block at its offset; meaningful when the
/// blocks tile the piece, in which case they are unique.
pub open spec fn assembled_bytes(blocks: Seq<(u32, Vec<u8>)>, size: int) -> Seq<u8>
    recommends
        blocks_in_bounds(blocks, size),
        no_overlap(blocks),
        forall|o: int| 0 <= o < size ==> covered(blocks, o),
{
    Seq::new(
        size as nat,
        |o: int|
            {
                let i = choose|i: int| 0 <= i < blocks.len() && in_block(#[trigger] blocks[i], o);
                blocks[i].1@[o - blocks[i].0]
            },
    )
}

/// A sequence that holds every block of a tiling at its offset is the
/// assembled piece.
pub proof fn lemma_assemble_witness(blocks: Seq<(u32, Vec<u8>)>, size: int, p: Seq<u8>)
    requires
        blocks_in_bounds(blocks, size),
        no_overlap(blocks),
        forall|o: int| 0 <= o < size ==> covered(blocks, o),
        p.len() == size,
        forall|i: int| 0 <= i < blocks.len() ==> block_placed(p, #[trigger] blocks[i]),
    ensures
        assembled_bytes(blocks, size) == p,
{
    let w = assembled_bytes(blocks, size);
    assert forall|o: int| 0 <= o < size implies w[o] == p[o] by {
        assert(covered(blocks, o));
        let i = choose|i: int| 0 <= i < blocks.len() && in_block(#[trigger] blocks[i], o);
        assert(block_placed(p, blocks[i]));
        assert(p.subrange(blocks[i].0 as int, blocks[i].0 + blocks[i].1@.len())[o - blocks[i].0]
            == blocks[i].1@[o - blocks[i].0]);
    }
    assert(w =~= p);
}

} // verus!
