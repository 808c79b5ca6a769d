use vstd::prelude::*;
use std::collections::HashMap;
use crate::hash::{digest_eq, sha1_digest, sha1_of};
use crate::scheduler::{PieceQueue, released};
use crate::torrent::{InfoModel, TorrentInfo, ceil_div};
use crate::wire::{Message, MsgModel, be32_at};

verus! {

broadcast use vstd::std_specs::hash::group_hash_axioms;

/// Bytes asked for in one request.
pub const BLOCK_SIZE: u32 = 16384;

impl InfoModel {
    /// Bytes in piece `i`: the piece length, except for the last piece, which holds what
    /// is left of the file.
    pub open spec fn piece_size(self, i: nat) -> nat {
        if i + 1 < self.pieces.len() {
            self.piece_length
        } else {
            (self.length - (self.pieces.len() - 1) * self.piece_length) as nat
        }
    }

    /// Where piece `i` goes in the output file: at `i × piece length`, or at the start
    /// when a single piece is written on its own.
    pub open spec fn write_offset(self, i: nat, full_file: bool) -> nat {
        if full_file {
            i * self.piece_length
        } else {
            0
        }
    }
}

proof fn lemma_ceil_div(a: nat, b: nat)
    requires
        b > 0,
    ensures
        ceil_div(a, b) * b >= a,
        ceil_div(a, b) > 0 ==> (ceil_div(a, b) - 1) * b < a,
        a > 0 <==> ceil_div(a, b) > 0,
{
    let x = (a + b - 1) as int;
    let q = x / (b as int);
    vstd::arithmetic::div_mod::lemma_fundamental_div_mod(x, b as int);
    let r = x % (b as int);
    assert(q * b >= a) by (nonlinear_arith)
        requires
            x == b * q + r,
            r < b,
            x == a + b - 1,
    ;
    assert(q > 0 ==> (q - 1) * b < a) by (nonlinear_arith)
        requires
            x == b * q + r,
            r >= 0,
            x == a + b - 1,
    ;
    assert(a > 0 ==> q > 0) by (nonlinear_arith)
        requires
            q * b >= a,
            b > 0,
    ;
    assert(a == 0 ==> q == 0) by (nonlinear_arith)
        requires
            x == b * q + r,
            0 <= r < b,
            x == a + b - 1,
    ;
}

proof fn lemma_ceil_div_unique(a: nat, b: nat, j: nat)
    requires
        b > 0,
        j * b >= a,
        j == 0 || (j - 1) * b < a,
    ensures
        j == ceil_div(a, b),
{
    lemma_ceil_div(a, b);
    let c = ceil_div(a, b);
    if j < c {
        assert(j * b <= (c - 1) * b) by (nonlinear_arith)
            requires
                j < c,
                b > 0,
        ;
    } else if j > c {
        assert((j - 1) * b >= c * b) by (nonlinear_arith)
            requires
                j > c,
                b > 0,
        ;
    }
}

/// The last piece's size lies in `(0, piece length]`, and every piece before it is full.
pub proof fn lemma_piece_size_bounds(m: InfoModel, i: nat)
    requires
        m.wf(),
        i < m.pieces.len(),
    ensures
        0 < m.piece_size(i) <= m.piece_length,
        i * m.piece_length + m.piece_size(i) <= m.length,
        i + 1 == m.pieces.len() ==> i * m.piece_length + m.piece_size(i) == m.length,
{
    lemma_ceil_div(m.length, m.piece_length);
    let n = m.pieces.len();
    let pl = m.piece_length;
    assert(i * pl <= (n - 1) * pl) by (nonlinear_arith)
        requires
            i < n,
    ;
    if i + 1 < n {
        assert((i + 1) * pl <= (n - 1) * pl) by (nonlinear_arith)
            requires
                i + 1 < n,
        ;
    }
    assert((n - 1) * pl + pl == n * pl) by (nonlinear_arith);
    assert((i + 1) * pl == i * pl + pl) by (nonlinear_arith);
}

/// Why an incoming block was refused.
#[derive(Debug, PartialEq, Eq)]
pub enum PieceError {
    /// Fewer than the 8 bytes of index and offset.
    TooShort,
    /// The index names no piece of the torrent.
    UnknownPiece(u32),
    /// The piece is complete but its digest does not match; it was released to the queue.
    Corrupt(u32),
}

/// What became of a block.
#[derive(Debug, PartialEq, Eq)]
pub enum PieceOutcome {
    /// The piece still misses bytes.
    Partial,
    /// The piece is complete and its digest matches: `data` goes to the output at
    /// `offset`, after which the caller marks the piece complete in the queue.
    Verified { index: u32, offset: u64, data: Vec<u8> },
}

/// Requests blocks and assembles them into pieces.
///
/// Blocks of a piece are appended in the order they arrive: requests are issued in
/// offset order and a peer answers them in order on one connection, so arrival order is
/// offset order.
pub struct PieceManager {
    pub torrent_info: TorrentInfo,
    pub received_blocks: HashMap<u32, Vec<u8>>,
}

/// The request for block `j` of a piece of `size` bytes.
pub open spec fn block_request(index: u32, size: nat, j: int) -> MsgModel {
    MsgModel::Request {
        index,
        begin: (j * BLOCK_SIZE) as u32,
        length: if (j + 1) * BLOCK_SIZE <= size {
            BLOCK_SIZE
        } else {
            (size - j * BLOCK_SIZE) as u32
        },
    }
}

/// The piece index a `piece` payload names.
pub open spec fn block_index(payload: Seq<u8>) -> u32 {
    be32_at(payload, 0) as u32
}

/// A payload that names a piece of a torrent with `n` pieces.
pub open spec fn accepted(payload: Seq<u8>, n: nat) -> bool {
    payload.len() >= 8 && be32_at(payload, 0) < n
}

/// Why a payload that names no piece is refused.
pub open spec fn refusal(payload: Seq<u8>) -> Result<PieceOutcome, PieceError> {
    if payload.len() < 8 {
        Err(PieceError::TooShort)
    } else {
        Err(PieceError::UnknownPiece(block_index(payload)))
    }
}

/// Piece `index` has gathered `buf`: short of its size it waits (and `kept` is `buf`);
/// at its size it is handed back when its digest matches and refused otherwise, and
/// nothing is kept.
pub open spec fn assembled(
    info: InfoModel,
    buf: Seq<u8>,
    index: u32,
    full_file: bool,
    r: Result<PieceOutcome, PieceError>,
    kept: Seq<u8>,
) -> bool {
    if buf.len() < info.piece_size(index as nat) {
        r == Ok::<PieceOutcome, PieceError>(PieceOutcome::Partial) && kept == buf
    } else if sha1_of(buf) == info.pieces[index as int] {
        &&& (r matches Ok(PieceOutcome::Verified { index: i, offset, data }) && i == index
            && data@ == buf && offset == info.write_offset(index as nat, full_file))
        &&& kept == Seq::<u8>::empty()
    } else {
        r == Err::<PieceOutcome, PieceError>(PieceError::Corrupt(index)) && kept == Seq::<
            u8,
        >::empty()
    }
}

impl PieceManager {
    /// The bytes gathered so far for piece `i`.
    pub open spec fn buffer(&self, i: u32) -> Seq<u8> {
        if self.received_blocks@.contains_key(i) {
            self.received_blocks@[i]@
        } else {
            Seq::empty()
        }
    }

    pub fn new(torrent_info: TorrentInfo) -> (r: PieceManager)
        ensures
            r.torrent_info == torrent_info,
            forall|i: u32| r.buffer(i) == Seq::<u8>::empty(),
    {
        PieceManager { torrent_info, received_blocks: HashMap::new() }
    }

    /// Block requests that cover piece `piece_index`: from offset 0 in steps of 16 KiB,
    /// each for 16 KiB or what is left of the piece.
    pub fn request_blocks(&self, piece_index: u32) -> (r: Vec<Message>)
        requires
            self.torrent_info@.wf(),
            piece_index < self.torrent_info.pieces.len(),
        ensures
            r.len() == ceil_div(
                self.torrent_info@.piece_size(piece_index as nat),
                BLOCK_SIZE as nat,
            ),
            forall|j: int|
                0 <= j < r.len() ==> (#[trigger] r@[j])@ == block_request(
                    piece_index,
                    self.torrent_info@.piece_size(piece_index as nat),
                    j,
                ),
    {
        let size = self.torrent_info.piece_size(piece_index) as u64;
        let mut out: Vec<Message> = Vec::new();
        let mut offset: u64 = 0;
        let ghost s = size as nat;
        while offset < size
            invariant
                size <= u32::MAX,
                s == size,
                s == self.torrent_info@.piece_size(piece_index as nat),
                offset == out.len() * BLOCK_SIZE,
                out.len() == 0 || (out.len() - 1) * BLOCK_SIZE < size,
                forall|j: int|
                    0 <= j < out.len() ==> (#[trigger] out@[j])@ == block_request(piece_index, s, j),
            decreases size + 16384 - offset,
        {
            let left = size - offset;
            let length = if left < BLOCK_SIZE as u64 {
                left as u32
            } else {
                BLOCK_SIZE
            };
            let ghost j = out.len() as int;
            out.push(Message::Request { index: piece_index, begin: offset as u32, length });
            assert((j + 1) * BLOCK_SIZE == offset + BLOCK_SIZE);
            offset = offset + BLOCK_SIZE as u64;
        }
        proof {
            lemma_ceil_div_unique(s, BLOCK_SIZE as nat, out.len() as nat);
        }
        out
    }

    /// Takes one `piece` message payload (`index`, `begin`, block) and adds the block to
    /// its piece. A complete piece is checked against its digest: on a match it is handed
    /// back to be written; on a mismatch it is dropped and, if assigned, requeued.
    pub fn handle_piece(&mut self, payload: &[u8], piece_queue: &mut PieceQueue, full_file: bool) -> (r:
        Result<PieceOutcome, PieceError>)
        requires
            old(self).torrent_info@.wf(),
        ensures
            final(self).torrent_info == old(self).torrent_info,
            !accepted(payload@, old(self).torrent_info@.pieces.len()) ==> r == refusal(
                payload@,
            ),
            forall|j: u32|
                !accepted(payload@, old(self).torrent_info@.pieces.len()) || j != block_index(
                    payload@,
                ) ==> #[trigger] final(self).buffer(j) == old(self).buffer(j),
            accepted(payload@, old(self).torrent_info@.pieces.len()) ==> assembled(
                old(self).torrent_info@,
                old(self).buffer(block_index(payload@)) + payload@.skip(8),
                block_index(payload@),
                full_file,
                r,
                final(self).buffer(block_index(payload@)),
            ),
            final(piece_queue)@ == if r == Err::<PieceOutcome, PieceError>(
                PieceError::Corrupt(block_index(payload@)),
            ) {
                released(old(piece_queue)@, block_index(payload@))
            } else {
                old(piece_queue)@
            },
    {
        if payload.len() < 8 {
            return Err(PieceError::TooShort);
        }
        let index = read_u32(payload, 0);
        if index as usize >= self.torrent_info.pieces.len() {
            return Err(PieceError::UnknownPiece(index));
        }
        let mut buf = match self.received_blocks.remove(&index) {
            Some(b) => b,
            None => Vec::new(),
        };
        let ghost old_buf = old(self).buffer(index);
        assert(buf@ == old_buf);
        let mut k: usize = 8;
        while k < payload.len()
            invariant
                8 <= k <= payload.len(),
                buf@ == old_buf + payload@.subrange(8, k as int),
            decreases payload.len() - k,
        {
            buf.push(payload[k]);
            assert(payload@.subrange(8, k + 1) =~= payload@.subrange(8, k as int).push(
                payload@[k as int],
            ));
            k += 1;
        }
        assert(payload@.subrange(8, k as int) =~= payload@.skip(8));
        let size = self.torrent_info.piece_size(index);
        if buf.len() < size {
            self.received_blocks.insert(index, buf);
            proof {
                assert forall|j: u32| j != index implies #[trigger] self.buffer(j) == old(self).buffer(
                    j,
                ) by {}
            }
            return Ok(PieceOutcome::Partial);
        }
        let digest = sha1_digest(buf.as_slice());
        let ghost expected = self.torrent_info@.pieces[index as int];
        assert(self.torrent_info.pieces@[index as int]@ == expected);
        if digest_eq(&digest, &self.torrent_info.pieces[index as usize]) {
            let offset = self.torrent_info.write_offset(index, full_file);
            Ok(PieceOutcome::Verified { index, offset, data: buf })
        } else {
            piece_queue.release_piece(index);
            Err(PieceError::Corrupt(index))
        }
    }
}

fn read_u32(b: &[u8], i: usize) -> (r: u32)
    requires
        i + 4 <= b.len(),
    ensures
        r as nat == be32_at(b@, i as int),
{
    (b[i] as u32) * 16777216 + (b[i + 1] as u32) * 65536 + (b[i + 2] as u32) * 256 + (b[i
        + 3] as u32)
}

impl TorrentInfo {
    /// Size of piece `index`.
    pub fn piece_size(&self, index: u32) -> (r: usize)
        requires
            self@.wf(),
            index < self.pieces.len(),
        ensures
            r == self@.piece_size(index as nat),
            0 < r <= self.piece_length,
    {
        proof {
            lemma_piece_size_bounds(self@, index as nat);
            lemma_piece_size_bounds(self@, (self.pieces.len() - 1) as nat);
        }
        if (index as usize) + 1 < self.pieces.len() {
            self.piece_length
        } else {
            self.length - (self.pieces.len() - 1) * self.piece_length
        }
    }

    /// Offset in the output file at which piece `index` is written.
    pub fn write_offset(&self, index: u32, full_file: bool) -> (r: u64)
        requires
            self@.wf(),
        ensures
            r == self@.write_offset(index as nat, full_file),
    {
        if full_file {
            assert(index * self.piece_length <= u32::MAX * u32::MAX) by (nonlinear_arith)
                requires
                    index <= u32::MAX,
                    self.piece_length <= u32::MAX,
            ;
            (index as u64) * (self.piece_length as u64)
        } else {
            0
        }
    }
}

/// The bytes a peer sends for block `j` of `data`, answering `block_request` for it.
pub open spec fn block_of(data: Seq<u8>, j: int) -> Seq<u8> {
    if (j + 1) * BLOCK_SIZE <= data.len() {
        data.subrange(j * BLOCK_SIZE, (j + 1) * BLOCK_SIZE)
    } else {
        data.subrange(j * BLOCK_SIZE, data.len() as int)
    }
}

/// The blocks of `data`, in request order.
pub open spec fn blocks_of(data: Seq<u8>) -> Seq<Seq<u8>> {
    Seq::new(ceil_div(data.len(), BLOCK_SIZE as nat), |j: int| block_of(data, j))
}

proof fn lemma_blocks_prefix(data: Seq<u8>, k: nat)
    requires
        k <= ceil_div(data.len(), BLOCK_SIZE as nat),
    ensures
        blocks_of(data).take(k as int).flatten_alt() == if k * BLOCK_SIZE <= data.len() {
            data.take(k * BLOCK_SIZE)
        } else {
            data
        },
    decreases k,
{
    lemma_ceil_div(data.len(), BLOCK_SIZE as nat);
    let c = ceil_div(data.len(), BLOCK_SIZE as nat);
    if k == 0 {
        assert(blocks_of(data).take(0) =~= Seq::<Seq<u8>>::empty());
        assert(data.take(0) =~= Seq::<u8>::empty());
    } else {
        lemma_blocks_prefix(data, (k - 1) as nat);
        assert(blocks_of(data).take(k as int).drop_last() =~= blocks_of(data).take(k - 1));
        assert((k - 1) * BLOCK_SIZE < data.len()) by (nonlinear_arith)
            requires
                k <= c,
                c > 0 ==> (c - 1) * BLOCK_SIZE < data.len(),
                c > 0,
        ;
        assert(k * BLOCK_SIZE == (k - 1) * BLOCK_SIZE + BLOCK_SIZE) by (nonlinear_arith);
        if k * BLOCK_SIZE <= data.len() {
            assert(data.take((k - 1) * BLOCK_SIZE) + block_of(data, k - 1) =~= data.take(
                k * BLOCK_SIZE,
            ));
        } else {
            assert(data.take((k - 1) * BLOCK_SIZE) + block_of(data, k - 1) =~= data);
        }
    }
}

/// Blocks that arrive in request order, each of the length its request names, gather
/// into exactly the piece's bytes.
pub proof fn lemma_blocks_in_order(data: Seq<u8>)
    ensures
        blocks_of(data).flatten_alt() == data,
        forall|j: int|
            0 <= j < blocks_of(data).len() ==> (#[trigger] blocks_of(data)[j]).len() == (
            block_request(0, data.len(), j)->Request_length) as nat,
{
    let c = ceil_div(data.len(), BLOCK_SIZE as nat);
    lemma_ceil_div(data.len(), BLOCK_SIZE as nat);
    lemma_blocks_prefix(data, c);
    assert(blocks_of(data).take(c as int) =~= blocks_of(data));
    if c * BLOCK_SIZE <= data.len() {
        assert(data.take(c * BLOCK_SIZE) =~= data);
    }
    assert forall|j: int| 0 <= j < blocks_of(data).len() implies (#[trigger] blocks_of(
        data,
    )[j]).len() == (block_request(0, data.len(), j)->Request_length) as nat by {
        assert(j * BLOCK_SIZE < data.len()) by (nonlinear_arith)
            requires
                0 <= j < c,
                c > 0 ==> (c - 1) * BLOCK_SIZE < data.len(),
        ;
        assert((j + 1) * BLOCK_SIZE == j * BLOCK_SIZE + BLOCK_SIZE) by (nonlinear_arith);
    }
}

/// Whatever piece the assembler hands back for writing in a full download hashes to that
/// piece's digest and goes to offset `index × piece length`.
pub proof fn lemma_written_piece_verified(
    info: InfoModel,
    buf: Seq<u8>,
    index: u32,
    r: Result<PieceOutcome, PieceError>,
    kept: Seq<u8>,
)
    requires
        assembled(info, buf, index, true, r, kept),
    ensures
        r matches Ok(PieceOutcome::Verified { index: i, offset, data }) ==> (sha1_of(data@)
            == info.pieces[i as int] && offset == i * info.piece_length),
{
}

/// Total bytes asked for by the first `k` block requests of a piece of `size` bytes.
pub open spec fn requested_bytes(size: nat, k: nat) -> nat
    decreases k,
{
    if k == 0 {
        0
    } else {
        requested_bytes(size, (k - 1) as nat) + (block_request(0, size, k - 1)->Request_length) as nat
    }
}

proof fn lemma_requested_prefix(size: nat, k: nat)
    requires
        size <= u32::MAX,
        k <= ceil_div(size, BLOCK_SIZE as nat),
    ensures
        requested_bytes(size, k) == if k * BLOCK_SIZE <= size {
            k * BLOCK_SIZE
        } else {
            size as int
        },
    decreases k,
{
    lemma_ceil_div(size, BLOCK_SIZE as nat);
    let c = ceil_div(size, BLOCK_SIZE as nat);
    if k > 0 {
        lemma_requested_prefix(size, (k - 1) as nat);
        assert((k - 1) * BLOCK_SIZE < size) by (nonlinear_arith)
            requires
                k <= c,
                c > 0 ==> (c - 1) * BLOCK_SIZE < size,
                c > 0,
        ;
        assert(k * BLOCK_SIZE == (k - 1) * BLOCK_SIZE + BLOCK_SIZE) by (nonlinear_arith);
    }
}

/// The block requests for a piece ask for exactly its bytes: their lengths add up to its
/// size, the last piece's smaller size included.
pub proof fn lemma_requests_cover_piece(m: InfoModel, i: nat)
    requires
        m.wf(),
        i < m.pieces.len(),
    ensures
        requested_bytes(m.piece_size(i), ceil_div(m.piece_size(i), BLOCK_SIZE as nat)) == m.piece_size(
            i,
        ),
        i + 1 == m.pieces.len() ==> m.piece_size(i) == m.length - i * m.piece_length,
{
    lemma_piece_size_bounds(m, i);
    let size = m.piece_size(i);
    let c = ceil_div(size, BLOCK_SIZE as nat);
    lemma_ceil_div(size, BLOCK_SIZE as nat);
    lemma_requested_prefix(size, c);
}

/// Handing a piece's blocks to `handle_piece` in request order, from an empty buffer:
/// each call adds its block to what the earlier ones gathered, every call before the last
/// leaves the piece short, and the last one has gathered exactly the piece's bytes.
pub proof fn lemma_in_order_calls(data: Seq<u8>)
    requires
        data.len() > 0,
    ensures
        forall|k: int|
            0 <= k < blocks_of(data).len() ==> #[trigger] blocks_of(data).take(k + 1).flatten_alt()
                == blocks_of(data).take(k).flatten_alt() + blocks_of(data)[k],
        forall|k: int|
            0 <= k < blocks_of(data).len() - 1 ==> (#[trigger] blocks_of(data).take(k + 1)).flatten_alt().len()
                < data.len(),
        blocks_of(data).take(blocks_of(data).len() as int).flatten_alt() == data,
{
    let b = blocks_of(data);
    let c = ceil_div(data.len(), BLOCK_SIZE as nat);
    lemma_ceil_div(data.len(), BLOCK_SIZE as nat);
    assert forall|k: int| 0 <= k < b.len() implies #[trigger] b.take(k + 1).flatten_alt() == b.take(
        k,
    ).flatten_alt() + b[k] by {
        assert(b.take(k + 1).drop_last() =~= b.take(k));
    }
    assert forall|k: int| 0 <= k < b.len() - 1 implies (#[trigger] b.take(k + 1)).flatten_alt().len()
        < data.len() by {
        lemma_blocks_prefix(data, (k + 1) as nat);
        assert((k + 1) * BLOCK_SIZE < data.len()) by (nonlinear_arith)
            requires
                k + 1 < c,
                c > 0 ==> (c - 1) * BLOCK_SIZE < data.len(),
                c > 0,
        ;
    }
    lemma_blocks_in_order(data);
    assert(b.take(b.len() as int) =~= b);
}

} // verus!
