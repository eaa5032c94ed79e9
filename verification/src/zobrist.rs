//! Zobrist keys: one random number for each fact that can hold of a position.
use vstd::prelude::*;
use rand::rngs::StdRng;
use rand::RngCore;
use rand::SeedableRng;
use crate::bits::lsb;
use crate::position::{piece_in, Position};

verus! {

/// `StdRng` of `rand`: a generator of numbers. It is carried through;
/// nothing is known of what is inside.
#[verifier::external_type_specification]
#[verifier::external_body]
pub struct ExStdRng(StdRng);

/// The seed of the key table.
pub const KEY_SEED: u64 = 572114346;

/// `StdRng::seed_from_u64` of `rand`: a generator started from `seed`.
/// Nothing is claimed of the generator.
#[verifier::external_body]
fn seeded_generator(seed: u64) -> StdRng {
    StdRng::seed_from_u64(seed)
}

/// `RngCore::next_u64` of `rand` on a `StdRng`: the generator's next number.
/// Nothing is claimed of the number.
#[verifier::external_body]
fn next_key(rng: &mut StdRng) -> u64 {
    rng.next_u64()
}

/// The table of keys.
pub struct HashTable {
    /// One number for each piece on each square: square `sq` and piece code
    /// `p` share the entry `12 * sq + p - 2`.
    pub pieces: Vec<u64>,
    /// One number to indicate that the side to move is black.
    pub black_to_move: u64,
    /// Four numbers to indicate the castling rights.
    pub white_king_castle: u64,
    pub white_queen_castle: u64,
    pub black_king_castle: u64,
    pub black_queen_castle: u64,
    /// Eight numbers to indicate the file of an en-passant square.
    pub en_passant: Vec<u64>,
}

impl HashTable {
    /// The table has a key for each piece on each square and for each file.
    pub open spec fn wf(&self) -> bool {
        self.pieces@.len() == 768 && self.en_passant@.len() == 8
    }

    /// The key of `piece` standing on `sq`; an empty square has the key 0.
    pub open spec fn square_key(&self, sq: int, piece: int) -> u64 {
        if 2 <= piece < 14 {
            self.pieces@[12 * sq + piece - 2]
        } else {
            0
        }
    }

    /// The key of an en-passant target: that of its file, or 0 without one.
    pub open spec fn ep_key(&self, ep: u64) -> u64 {
        if ep == 0 {
            0
        } else {
            self.en_passant@[lsb(ep) % 8]
        }
    }

    /// The keys of the pieces on the squares below `n`, combined.
    pub open spec fn pieces_key(&self, bb: Seq<u64>, n: int) -> u64
        decreases n,
    {
        if n <= 0 {
            0
        } else {
            self.pieces_key(bb, n - 1) ^ self.square_key(n - 1, piece_in(bb, n - 1))
        }
    }

    /// The keys of side to move, castling rights and en-passant file, combined.
    pub open spec fn state_key(&self, p: Position) -> u64 {
        (if p.white_to_move {
            0
        } else {
            self.black_to_move
        }) ^ (if p.white_king_castle {
            self.white_king_castle
        } else {
            0
        }) ^ (if p.white_queen_castle {
            self.white_queen_castle
        } else {
            0
        }) ^ (if p.black_king_castle {
            self.black_king_castle
        } else {
            0
        }) ^ (if p.black_queen_castle {
            self.black_queen_castle
        } else {
            0
        }) ^ self.ep_key(p.ep)
    }

    /// The key of a position, computed from scratch over all its facts.
    pub open spec fn key_of(&self, p: Position) -> u64 {
        self.pieces_key(p.bb, 64) ^ self.state_key(p)
    }

    /// Builds the table from the generator seeded with `KEY_SEED`.
    pub fn new() -> (t: HashTable)
        ensures
            t.wf(),
    {
        let mut rng = seeded_generator(KEY_SEED);
        let mut pieces: Vec<u64> = Vec::new();
        let mut i: usize = 0;
        while i < 768
            invariant
                i <= 768,
                pieces@.len() == i,
            decreases 768 - i,
        {
            pieces.push(next_key(&mut rng));
            i += 1;
        }
        let black_to_move = next_key(&mut rng);
        let white_king_castle = next_key(&mut rng);
        let white_queen_castle = next_key(&mut rng);
        let black_king_castle = next_key(&mut rng);
        let black_queen_castle = next_key(&mut rng);
        let mut en_passant: Vec<u64> = Vec::new();
        let mut file: usize = 0;
        while file < 8
            invariant
                file <= 8,
                en_passant@.len() == file,
            decreases 8 - file,
        {
            en_passant.push(next_key(&mut rng));
            file += 1;
        }
        HashTable {
            pieces,
            black_to_move,
            white_king_castle,
            white_queen_castle,
            black_king_castle,
            black_queen_castle,
            en_passant,
        }
    }

    /// The key of `piece` on `sq`.
    pub fn piece_key(&self, sq: usize, piece: usize) -> (k: u64)
        requires
            self.wf(),
            sq < 64,
            2 <= piece < 14,
        ensures
            k == self.square_key(sq as int, piece as int),
    {
        self.pieces[12 * sq + piece - 2]
    }

    /// The key of the file of the en-passant target `ep`.
    pub fn en_passant_key(&self, ep: u64) -> (k: u64)
        requires
            self.wf(),
        ensures
            k == self.ep_key(ep),
    {
        if ep == 0 {
            0
        } else {
            let x = crate::bits::get_lsb(ep) % 8;
            self.en_passant[x]
        }
    }

    /// If two sets of bitboards show the same pieces everywhere but on `s`,
    /// their piece keys differ by the two keys of `s`.
    pub proof fn lemma_pieces_key_frame(&self, a: Seq<u64>, b: Seq<u64>, s: int, n: int)
        requires
            0 <= n <= 64,
            forall|i: int| 0 <= i < n && i != s ==> piece_in(a, i) == piece_in(b, i),
        ensures
            self.pieces_key(b, n) == if 0 <= s < n {
                self.pieces_key(a, n) ^ self.square_key(s, piece_in(a, s)) ^ self.square_key(
                    s,
                    piece_in(b, s),
                )
            } else {
                self.pieces_key(a, n)
            },
        decreases n,
    {
        if n > 0 {
            self.lemma_pieces_key_frame(a, b, s, n - 1);
            let x = self.pieces_key(a, n - 1);
            let u = self.square_key(s, piece_in(a, s));
            let v = self.square_key(s, piece_in(b, s));
            let w = self.square_key(n - 1, piece_in(a, n - 1));
            bv_xor_frame(x, u, v, w);
        }
    }
}

proof fn bv_xor_frame(x: u64, u: u64, v: u64, w: u64)
    by (bit_vector)
    ensures
        ((x ^ u) ^ u) ^ v == x ^ v,
        ((x ^ u) ^ v) ^ w == ((x ^ w) ^ u) ^ v,
{
}

/// Exclusive or with 0 changes nothing, and a number cancels itself.
pub proof fn lemma_xor_basics(x: u64)
    by (bit_vector)
    ensures
        x ^ 0 == x,
        0 ^ x == x,
        x ^ x == 0,
{
}

} // verus!
