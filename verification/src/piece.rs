use vstd::prelude::*;
use crate::utils::{hex_chars_of, sha1_of, bytes_to_hex, sha1_digest};

verus! {

/// Blocks are transferred sixteen kibibytes at a time; only a piece's last
/// block may be shorter.
pub const BLOCK_SIZE: u32 = 16384;

/// The length of piece `i`: the nominal piece length for every piece the
/// payload fills whole, and the remainder for the final partial piece.
pub open spec fn piece_len_at(length: int, piece_length: int, i: int) -> int {
    if (i + 1) * piece_length <= length {
        piece_length
    } else {
        length - i * piece_length
    }
}

/// How many pieces a payload takes: at least one, covering the whole length
/// and no more than one nominal piece length beyond it.
pub open spec fn piece_count_ok(length: int, piece_length: int, count: int) -> bool {
    &&& count >= 1
    &&& (count - 1) * piece_length < length
    &&& length <= count * piece_length
}

/// The rounded-up piece count covers the payload as `piece_count_ok` asks.
pub proof fn lemma_ceil_bounds(length: int, piece_length: int)
    requires
        length > 0,
        piece_length > 0,
    ensures
        piece_count_ok(length, piece_length, (length + piece_length - 1) / piece_length),
{
    let n = length + piece_length - 1;
    let c = n / piece_length;
    let rr = n % piece_length;
    vstd::arithmetic::div_mod::lemma_fundamental_div_mod(n, piece_length);
    assert(n == piece_length * c + rr);
    assert(0 <= rr < piece_length);
    assert(length <= c * piece_length) by (nonlinear_arith)
        requires
            length + piece_length - 1 == piece_length * c + rr,
            0 <= rr < piece_length,
    ;
    assert((c - 1) * piece_length < length) by (nonlinear_arith)
        requires
            length + piece_length - 1 == piece_length * c + rr,
            0 <= rr < piece_length,
    ;
    assert(c >= 1) by (nonlinear_arith)
        requires
            length <= c * piece_length,
            length > 0,
            piece_length > 0,
    ;
}

/// The piece length the coordinator hands the downloader for piece `index`.
pub fn piece_length_for_index(length: i64, piece_length: i64, piece_count: usize, index: usize)
    -> (r: u32)
    requires
        0 < piece_length <= u32::MAX,
        length > 0,
        piece_count as int == (length + piece_length - 1) as int / piece_length as int,
        index < piece_count,
    ensures
        r as int == piece_len_at(length as int, piece_length as int, index as int),
        r > 0,
{
    let ghost l = length as int;
    let ghost pl = piece_length as int;
    let ghost c = piece_count as int;
    let ghost i = index as int;
    proof {
        lemma_ceil_bounds(l, pl);
        assert(piece_count_ok(l, pl, c));
    }
    if index == piece_count - 1 {
        let rem = length % piece_length;
        proof {
            let q = length as int / pl;
            vstd::arithmetic::div_mod::lemma_fundamental_div_mod(l, pl);
            assert(l == pl * q + l % pl);
            if l % pl == 0 {
                assert(q == c) by (nonlinear_arith)
                    requires
                        l == pl * q,
                        (c - 1) * pl < l,
                        l <= c * pl,
                        pl > 0,
                ;
                assert((i + 1) * pl == l) by (nonlinear_arith)
                    requires
                        i + 1 == c,
                        q == c,
                        l == pl * q,
                ;
            } else {
                assert(q == c - 1) by (nonlinear_arith)
                    requires
                        l == pl * q + l % pl,
                        0 < l % pl < pl,
                        (c - 1) * pl < l,
                        l <= c * pl,
                        pl > 0,
                ;
                assert((i + 1) * pl == c * pl);
                assert(l < c * pl || l == c * pl);
                assert(l != c * pl) by (nonlinear_arith)
                    requires
                        l == pl * (c - 1) + l % pl,
                        0 < l % pl < pl,
                ;
                assert(piece_len_at(l, pl, i) == l - i * pl);
                assert(l - (c - 1) * pl == l % pl) by (nonlinear_arith)
                    requires
                        l == pl * (c - 1) + l % pl,
                ;
            }
        }
        if rem == 0 {
            piece_length as u32
        } else {
            rem as u32
        }
    } else {
        proof {
            assert((i + 1) * pl <= (c - 1) * pl) by (nonlinear_arith)
                requires
                    i + 1 <= c - 1,
                    pl > 0,
            ;
        }
        piece_length as u32
    }
}

/// The lengths of all the pieces up to `n`, added up.
pub open spec fn sum_piece_lens(length: int, piece_length: int, n: int) -> int
    decreases n,
{
    if n <= 0 {
        0
    } else {
        sum_piece_lens(length, piece_length, n - 1) + piece_len_at(length, piece_length, n - 1)
    }
}

proof fn lemma_sum_full_pieces(length: int, piece_length: int, k: int)
    requires
        piece_length > 0,
        k >= 0,
        k * piece_length <= length,
    ensures
        sum_piece_lens(length, piece_length, k) == k * piece_length,
    decreases k,
{
    if k > 0 {
        assert((k - 1) * piece_length <= length && (k - 1) * piece_length == k * piece_length
            - piece_length) by (nonlinear_arith)
            requires
                k * piece_length <= length,
                piece_length > 0,
                k > 0,
        ;
        lemma_sum_full_pieces(length, piece_length, k - 1);
        assert(((k - 1) + 1) * piece_length == k * piece_length);
    } else {
        assert(k * piece_length == 0) by (nonlinear_arith)
            requires
                k == 0,
        ;
    }
}

/// The piece lengths add up to the payload length: downloading every piece
/// and laying them end to end yields exactly the announced number of bytes.
pub proof fn lemma_piece_lengths_cover(length: int, piece_length: int, count: int)
    requires
        piece_length > 0,
        piece_count_ok(length, piece_length, count),
    ensures
        sum_piece_lens(length, piece_length, count) == length,
{
    if length == count * piece_length {
        lemma_sum_full_pieces(length, piece_length, count);
    } else {
        assert((count - 1) * piece_length <= length);
        lemma_sum_full_pieces(length, piece_length, count - 1);
        assert(sum_piece_lens(length, piece_length, count) == sum_piece_lens(
            length,
            piece_length,
            count - 1,
        ) + piece_len_at(length, piece_length, count - 1));
        assert(((count - 1) + 1) * piece_length == count * piece_length);
        assert(piece_len_at(length, piece_length, count - 1) == length - (count - 1)
            * piece_length);
    }
}

/// The pieces laid end to end, in index order.
pub open spec fn concat_pieces(pieces: Seq<Seq<u8>>) -> Seq<u8>
    decreases pieces.len(),
{
    if pieces.len() == 0 {
        Seq::empty()
    } else {
        concat_pieces(pieces.drop_last()) + pieces.last()
    }
}

proof fn lemma_concat_pieces_len(pieces: Seq<Seq<u8>>, length: int, piece_length: int)
    requires
        forall|i: int|
            0 <= i < pieces.len() ==> (#[trigger] pieces[i]).len() == piece_len_at(
                length,
                piece_length,
                i,
            ),
    ensures
        concat_pieces(pieces).len() == sum_piece_lens(length, piece_length, pieces.len() as int),
    decreases pieces.len(),
{
    if pieces.len() > 0 {
        lemma_concat_pieces_len(pieces.drop_last(), length, piece_length);
    }
}

/// Downloading every piece in order gives a file of exactly the announced
/// length.
pub proof fn lemma_download_file_length(
    pieces: Seq<Seq<u8>>,
    length: int,
    piece_length: int,
)
    requires
        piece_length > 0,
        piece_count_ok(length, piece_length, pieces.len() as int),
        forall|i: int|
            0 <= i < pieces.len() ==> (#[trigger] pieces[i]).len() == piece_len_at(
                length,
                piece_length,
                i,
            ),
    ensures
        concat_pieces(pieces).len() == length,
{
    lemma_concat_pieces_len(pieces, length, piece_length);
    lemma_piece_lengths_cover(length, piece_length, pieces.len() as int);
}

/// Lays pieces end to end, in index order.
pub fn concat_all(pieces: &Vec<Vec<u8>>) -> (r: Vec<u8>)
    requires
        crate::piece::concat_pieces_views(pieces@).len() <= usize::MAX,
    ensures
        r@ == concat_pieces_views(pieces@),
{
    let mut out: Vec<u8> = Vec::new();
    let mut i: usize = 0;
    while i < pieces.len()
        invariant
            0 <= i <= pieces@.len(),
            out@ == concat_pieces_views(pieces@.take(i as int)),
            concat_pieces_views(pieces@).len() <= usize::MAX,
        decreases pieces@.len() - i,
    {
        proof {
            lemma_concat_views_take(pieces@, i as int);
            lemma_concat_views_take_prefix_len(pieces@, i + 1);
        }
        out.extend_from_slice(pieces[i].as_slice());
        i = i + 1;
    }
    proof {
        assert(pieces@.take(pieces@.len() as int) =~= pieces@);
    }
    out
}

/// The vectors' contents laid end to end.
pub open spec fn concat_pieces_views(pieces: Seq<Vec<u8>>) -> Seq<u8>
    decreases pieces.len(),
{
    if pieces.len() == 0 {
        Seq::empty()
    } else {
        concat_pieces_views(pieces.drop_last()) + pieces.last()@
    }
}

proof fn lemma_concat_views_take(pieces: Seq<Vec<u8>>, i: int)
    requires
        0 <= i < pieces.len(),
    ensures
        concat_pieces_views(pieces.take(i + 1)) == concat_pieces_views(pieces.take(i))
            + pieces[i]@,
{
    assert(pieces.take(i + 1).drop_last() =~= pieces.take(i));
    assert(pieces.take(i + 1).last() == pieces[i]);
}

proof fn lemma_concat_views_take_prefix_len(pieces: Seq<Vec<u8>>, i: int)
    requires
        0 <= i <= pieces.len(),
    ensures
        concat_pieces_views(pieces.take(i)).len() <= concat_pieces_views(pieces).len(),
    decreases pieces.len() - i,
{
    if i == pieces.len() {
        assert(pieces.take(i) =~= pieces);
    } else {
        lemma_concat_views_take_prefix_len(pieces, i + 1);
        lemma_concat_views_take(pieces, i);
    }
}

/// Why a block or an assembled piece was rejected.
#[derive(Debug)]
pub enum PieceError {
    /// The block names another piece.
    WrongPiece,
    /// The block does not start where the next bytes belong.
    WrongOffset,
    /// The block is not the length that was requested.
    WrongBlockLength,
    /// The piece is not complete yet.
    Incomplete,
    /// The assembled bytes hash to something other than the expected digest.
    HashMismatch,
}

/// Drives one piece download: hands out block requests in offset order,
/// accepts the blocks that answer them, and releases the piece only when
/// it is complete and its SHA-1 digest matches the expected one.
pub struct PieceDownload {
    piece_index: u32,
    piece_length: u32,
    data: Vec<u8>,
}

impl PieceDownload {
    pub closed spec fn view_index(&self) -> u32 {
        self.piece_index
    }

    pub closed spec fn view_length(&self) -> u32 {
        self.piece_length
    }

    pub closed spec fn view_data(&self) -> Seq<u8> {
        self.data@
    }

    /// The bytes received so far never outgrow the piece.
    pub closed spec fn inv(&self) -> bool {
        self.data@.len() <= self.piece_length
    }

    pub fn new(piece_index: u32, piece_length: u32) -> (r: Self)
        ensures
            r.inv(),
            r.view_index() == piece_index,
            r.view_length() == piece_length,
            r.view_data() == Seq::<u8>::empty(),
    {
        PieceDownload { piece_index, piece_length, data: Vec::new() }
    }

    /// The next block to request: this piece, the next unfilled offset, and
    /// a whole block unless fewer bytes remain. `None` once the piece is
    /// complete.
    pub fn next_request(&self) -> (r: Option<(u32, u32, u32)>)
        requires
            self.inv(),
        ensures
            match r {
                Some(req) => {
                    &&& req.0 == self.view_index()
                    &&& req.1 == self.view_data().len()
                    &&& req.2 as int == (if self.view_data().len() + BLOCK_SIZE
                        <= self.view_length() {
                        BLOCK_SIZE as int
                    } else {
                        self.view_length() - self.view_data().len()
                    })
                    &&& req.2 > 0
                },
                None => self.view_data().len() == self.view_length(),
            },
    {
        if self.data.len() == self.piece_length as usize {
            return None;
        }
        let begin = self.data.len() as u32;
        let remaining = self.piece_length - begin;
        let len = if remaining < BLOCK_SIZE {
            remaining
        } else {
            BLOCK_SIZE
        };
        Some((self.piece_index, begin, len))
    }

    /// Accepts one block if it answers the outstanding request: right
    /// piece, right offset, right length. The block's bytes are appended;
    /// a rejected block changes nothing.
    pub fn accept_block(&mut self, index: u32, begin: u32, block: &Vec<u8>) -> (r: Result<
        (),
        PieceError,
    >)
        requires
            old(self).inv(),
        ensures
            final(self).inv(),
            final(self).view_index() == old(self).view_index(),
            final(self).view_length() == old(self).view_length(),
            r is Ok <==> {
                &&& index == old(self).view_index()
                &&& begin == old(self).view_data().len()
                &&& old(self).view_data().len() < old(self).view_length()
                &&& block@.len() == (if old(self).view_data().len() + BLOCK_SIZE <= old(
                    self,
                ).view_length() {
                    BLOCK_SIZE as int
                } else {
                    old(self).view_length() - old(self).view_data().len()
                })
            },
            r is Ok ==> final(self).view_data() == old(self).view_data() + block@,
            r is Err ==> final(self).view_data() == old(self).view_data(),
    {
        if index != self.piece_index {
            return Err(PieceError::WrongPiece);
        }
        if self.data.len() == self.piece_length as usize {
            return Err(PieceError::WrongOffset);
        }
        if begin as usize != self.data.len() {
            return Err(PieceError::WrongOffset);
        }
        let remaining = self.piece_length - (self.data.len() as u32);
        let expected = if remaining < BLOCK_SIZE {
            remaining
        } else {
            BLOCK_SIZE
        };
        if block.len() != expected as usize {
            return Err(PieceError::WrongBlockLength);
        }
        self.data.extend_from_slice(block.as_slice());
        Ok(())
    }

    /// Releases the assembled piece if it is complete and its SHA-1 digest,
    /// spelled in hex, equals the expected digest. A successful download
    /// therefore always returns bytes whose SHA-1 matches the torrent's
    /// digest for this piece.
    pub fn into_piece(self, expected_hash_hex: &String) -> (r: Result<Vec<u8>, PieceError>)
        requires
            self.inv(),
        ensures
            r is Ok <==> self.view_data().len() == self.view_length() && hex_chars_of(
                sha1_of(self.view_data()),
            ) == expected_hash_hex@,
            r matches Ok(p) ==> p@ == self.view_data(),
    {
        if self.data.len() != self.piece_length as usize {
            return Err(PieceError::Incomplete);
        }
        let digest = sha1_digest(self.data.as_slice());
        let got = bytes_to_hex(digest.as_slice());
        if got.eq(expected_hash_hex) {
            Ok(self.data)
        } else {
            Err(PieceError::HashMismatch)
        }
    }
}

} // verus!
