//! Bitboards as sets of squares.
//!
//! Bit `i` of a bitboard stands for square `i`; square `8 * y + x` lies on
//! rank `y + 1`, and `x` counts the files from H (0) to A (7).
use vstd::prelude::*;
use vstd::std_specs::bits::u64_trailing_zeros;
use vstd::std_specs::bits::axiom_u64_trailing_zeros;

verus! {

// The files A, B, G and H.
pub const FILE_A: u64 = 0x8080808080808080;
pub const FILE_B: u64 = 0x4040404040404040;
pub const FILE_G: u64 = 0x0202020202020202;
pub const FILE_H: u64 = 0x0101010101010101;

// The ranks 1, 2, 3, 6, 7 and 8.
pub const RANK_1: u64 = 0x00000000000000ff;
pub const RANK_2: u64 = 0x000000000000ff00;
pub const RANK_3: u64 = 0x0000000000ff0000;
pub const RANK_6: u64 = 0x0000ff0000000000;
pub const RANK_7: u64 = 0x00ff000000000000;
pub const RANK_8: u64 = 0xff00000000000000;

/// Bit `i` of `b`, for `i` below 64.
pub open spec fn bit(b: u64, i: u64) -> bool {
    (b >> i) & 1 == 1
}

/// Square `i` belongs to the set `b`.
pub open spec fn mem(b: u64, i: int) -> bool {
    0 <= i < 64 && bit(b, i as u64)
}

/// The file coordinate of a square: 0 is file H, 7 is file A.
pub open spec fn file_of(sq: int) -> int {
    sq % 8
}

/// The rank coordinate of a square: 0 is rank 1, 7 is rank 8.
pub open spec fn rank_of(sq: int) -> int {
    sq / 8
}

/// The index of the lowest member of `b`, or 64 for the empty set.
pub open spec fn lsb(b: u64) -> int {
    u64_trailing_zeros(b) as int
}

proof fn bv_ops(a: u64, b: u64, i: u64)
    by (bit_vector)
    requires
        i < 64,
    ensures
        bit(a & b, i) == (bit(a, i) && bit(b, i)),
        bit(a | b, i) == (bit(a, i) || bit(b, i)),
        bit(a ^ b, i) == (bit(a, i) != bit(b, i)),
        bit(!a, i) == !bit(a, i),
        !bit(0, i),
{
}

proof fn bv_single(s: u64, i: u64)
    by (bit_vector)
    requires
        s < 64,
        i < 64,
    ensures
        bit(1u64 << s, i) == (s == i),
        (1u64 << s) != 0,
{
}

proof fn bv_shl(a: u64, k: u64, i: u64)
    by (bit_vector)
    requires
        k < 64,
        i < 64,
    ensures
        bit(a << k, i) == (i >= k && bit(a, (i - k) as u64)),
{
}

proof fn bv_shr(a: u64, k: u64, i: u64)
    by (bit_vector)
    requires
        k < 64,
        i < 64,
    ensures
        bit(a >> k, i) == (i + k < 64 && bit(a, (i + k) as u64)),
{
}

proof fn bv_xor_zero(a: u64, b: u64)
    by (bit_vector)
    ensures
        a ^ b == 0 <==> a == b,
{
}

proof fn bv_drop_lowest(b: u64, t: u64)
    by (bit_vector)
    requires
        t < 64,
        bit(b, t),
        b << ((64 - t) as u64) == 0,
    ensures
        b != 0,
        b & ((b - 1) as u64) == b ^ (1u64 << t),
{
}

proof fn bv_lines(i: u64)
    by (bit_vector)
    requires
        i < 64,
    ensures
        bit(FILE_A, i) == (i % 8 == 7),
        bit(FILE_B, i) == (i % 8 == 6),
        bit(FILE_G, i) == (i % 8 == 1),
        bit(FILE_H, i) == (i % 8 == 0),
        bit(RANK_1, i) == (i / 8 == 0),
        bit(RANK_2, i) == (i / 8 == 1),
        bit(RANK_3, i) == (i / 8 == 2),
        bit(RANK_6, i) == (i / 8 == 5),
        bit(RANK_7, i) == (i / 8 == 6),
        bit(RANK_8, i) == (i / 8 == 7),
{
}

/// Membership in intersections, unions, symmetric differences and complements.
pub proof fn lemma_mem_ops(a: u64, b: u64, i: int)
    requires
        0 <= i < 64,
    ensures
        mem(a & b, i) == (mem(a, i) && mem(b, i)),
        mem(a | b, i) == (mem(a, i) || mem(b, i)),
        mem(a ^ b, i) == (mem(a, i) != mem(b, i)),
        mem(!a, i) == !mem(a, i),
        !mem(0, i),
{
    bv_ops(a, b, i as u64);
}

/// The set `1 << s` holds the square `s` and nothing else.
pub proof fn lemma_mem_single(s: int, i: int)
    requires
        0 <= s < 64,
    ensures
        mem(1u64 << (s as u64), i) == (s == i),
        (1u64 << (s as u64)) != 0,
{
    if 0 <= i < 64 {
        bv_single(s as u64, i as u64);
    } else {
        bv_single(s as u64, 0);
    }
}

/// Shifting left by `k` moves every member up by `k` squares.
pub proof fn lemma_mem_shl(a: u64, k: int, i: int)
    requires
        0 <= k < 64,
    ensures
        mem(a << (k as u64), i) == (0 <= i < 64 && i >= k && mem(a, i - k)),
{
    if 0 <= i < 64 {
        bv_shl(a, k as u64, i as u64);
    }
}

/// Shifting right by `k` moves every member down by `k` squares.
pub proof fn lemma_mem_shr(a: u64, k: int, i: int)
    requires
        0 <= k < 64,
    ensures
        mem(a >> (k as u64), i) == (0 <= i < 64 && i + k < 64 && mem(a, i + k)),
{
    if 0 <= i < 64 {
        bv_shr(a, k as u64, i as u64);
    }
}

/// Membership in the named files and ranks.
pub proof fn lemma_mem_lines(i: int)
    requires
        0 <= i < 64,
    ensures
        mem(FILE_A, i) == (file_of(i) == 7),
        mem(FILE_B, i) == (file_of(i) == 6),
        mem(FILE_G, i) == (file_of(i) == 1),
        mem(FILE_H, i) == (file_of(i) == 0),
        mem(RANK_1, i) == (rank_of(i) == 0),
        mem(RANK_2, i) == (rank_of(i) == 1),
        mem(RANK_3, i) == (rank_of(i) == 2),
        mem(RANK_6, i) == (rank_of(i) == 5),
        mem(RANK_7, i) == (rank_of(i) == 6),
        mem(RANK_8, i) == (rank_of(i) == 7),
{
    bv_lines(i as u64);
}

/// A non-empty set has a lowest member, and nothing lies below it.
pub proof fn lemma_lsb(b: u64)
    ensures
        b == 0 <==> lsb(b) == 64,
        0 <= lsb(b) <= 64,
        b != 0 ==> mem(b, lsb(b)),
        forall|j: int| 0 <= j < lsb(b) ==> !mem(b, j),
{
    axiom_u64_trailing_zeros(b);
    assert forall|j: int| 0 <= j < lsb(b) implies !mem(b, j) by {
        let ju = j as u64;
        assert((b >> ju) & 1u64 == 0u64);
    }
}

/// Two bitboards with the same members are equal.
pub proof fn lemma_ext(a: u64, b: u64)
    requires
        forall|i: int| 0 <= i < 64 ==> mem(a, i) == mem(b, i),
    ensures
        a == b,
{
    let x = a ^ b;
    bv_xor_zero(a, b);
    if x != 0 {
        lemma_lsb(x);
        let i = lsb(x);
        lemma_mem_ops(a, b, i);
        assert(false);
    }
}

/// The empty bitboard is the only one without members.
pub proof fn lemma_empty(a: u64)
    ensures
        a == 0 <==> (forall|i: int| 0 <= i < 64 ==> !mem(a, i)),
{
    if a != 0 {
        lemma_lsb(a);
        assert(mem(a, lsb(a)));
    } else {
        assert forall|i: int| 0 <= i < 64 implies !mem(a, i) by {
            lemma_mem_ops(a, a, i);
        }
    }
}

/// Adds the square `i` to the set.
pub fn set_bit(b: &mut u64, i: usize)
    requires
        i < 64,
    ensures
        *final(b) == *old(b) | (1u64 << (i as u64)),
        forall|j: int| mem(*final(b), j) == (mem(*old(b), j) || j == i),
{
    let ghost before = *b;
    *b = *b | (1u64 << (i as u64));
    proof {
        assert forall|j: int| mem(*b, j) == (mem(before, j) || j == i) by {
            lemma_mem_single(i as int, j);
            if 0 <= j < 64 {
                lemma_mem_ops(before, 1u64 << (i as u64), j);
            }
        }
    }
}

/// The one-square set of `i` if `i` is a member of `b`, else the empty set.
pub fn get_bit(b: u64, i: usize) -> (r: u64)
    requires
        i < 64,
    ensures
        r == b & (1u64 << (i as u64)),
        (r != 0) == mem(b, i as int),
{
    let r = b & (1u64 << (i as u64));
    proof {
        lemma_empty(r);
        assert forall|j: int| 0 <= j < 64 implies mem(r, j) == (mem(b, j) && j == i) by {
            lemma_mem_single(i as int, j);
            lemma_mem_ops(b, 1u64 << (i as u64), j);
        }
        if mem(b, i as int) {
            assert(mem(r, i as int));
        }
    }
    r
}

/// Takes the square `i` out of the set.
pub fn clear_bit(b: &mut u64, i: usize)
    requires
        i < 64,
    ensures
        *final(b) == *old(b) & !(1u64 << (i as u64)),
        forall|j: int| mem(*final(b), j) == (mem(*old(b), j) && j != i),
{
    let ghost before = *b;
    *b = *b & !(1u64 << (i as u64));
    proof {
        assert forall|j: int| mem(*b, j) == (mem(before, j) && j != i) by {
            lemma_mem_single(i as int, j);
            if 0 <= j < 64 {
                lemma_mem_ops(before, !(1u64 << (i as u64)), j);
                lemma_mem_ops(1u64 << (i as u64), 0, j);
            }
        }
    }
}

/// The lowest member of a non-empty set.
pub fn get_lsb(b: u64) -> (i: usize)
    ensures
        i == lsb(b),
        b != 0 ==> i < 64 && mem(b, i as int),
        forall|j: int| 0 <= j < i ==> !mem(b, j),
{
    proof {
        lemma_lsb(b);
    }
    b.trailing_zeros() as usize
}

/// Removes the lowest member of a non-empty set and returns it.
pub fn pop_lsb(b: &mut u64) -> (i: usize)
    requires
        *old(b) != 0,
    ensures
        i == lsb(*old(b)),
        i < 64,
        mem(*old(b), i as int),
        forall|j: int| mem(*final(b), j) == (mem(*old(b), j) && j != i),
        forall|j: int| 0 <= j <= i ==> !mem(*final(b), j),
{
    let ghost before = *b;
    let i = get_lsb(*b);
    proof {
        axiom_u64_trailing_zeros(before);
        bv_drop_lowest(before, i as u64);
    }
    *b = *b & (*b - 1);
    proof {
        assert forall|j: int| mem(*b, j) == (mem(before, j) && j != i) by {
            lemma_mem_single(i as int, j);
            if 0 <= j < 64 {
                lemma_mem_ops(before, 1u64 << (i as u64), j);
            }
        }
        assert forall|j: int| 0 <= j <= i implies !mem(*b, j) by {
            assert(mem(*b, j) == (mem(before, j) && j != i));
        }
    }
    i
}

// All squares but those of file A, and all but those of file H.
pub const NOT_FILE_A: u64 = 0x7f7f7f7f7f7f7f7f;
pub const NOT_FILE_H: u64 = 0xfefefefefefefefe;

proof fn bv_not_files()
    by (bit_vector)
    ensures
        NOT_FILE_A == !FILE_A,
        NOT_FILE_H == !FILE_H,
{
}

/// The two sets of all squares but one file are the complements of the
/// files.
pub proof fn lemma_not_files()
    ensures
        NOT_FILE_A == !FILE_A,
        NOT_FILE_H == !FILE_H,
{
    bv_not_files();
}

/// Every member one rank up.
pub fn north(b: u64) -> (r: u64)
    ensures
        r == b << 8,
        forall|i: int| 0 <= i < 64 ==> #[trigger] mem(r, i) == (i >= 8 && mem(b, i - 8)),
{
    let r = b << 8;
    proof {
        assert forall|i: int| 0 <= i < 64 implies #[trigger] mem(r, i) == (i >= 8 && mem(b, i - 8)) by {
            lemma_mem_shl(b, 8, i);
        }
    }
    r
}

/// Every member one rank up and one file towards H.
pub fn north_east(b: u64) -> (r: u64)
    ensures
        r == (b & NOT_FILE_H) << 7,
        forall|i: int|
            0 <= i < 64 ==> #[trigger] mem(r, i) == (i >= 7 && mem(b, i - 7) && file_of(i - 7) != 0),
{
    let r = (b & NOT_FILE_H) << 7;
    proof {
        bv_not_files();
        assert forall|i: int| 0 <= i < 64 implies #[trigger] mem(r, i) == (i >= 7 && mem(b, i - 7)
            && file_of(i - 7) != 0) by {
            lemma_mem_shl(b & NOT_FILE_H, 7, i);
            if i >= 7 {
                lemma_mem_ops(b, !FILE_H, i - 7);
                lemma_mem_ops(FILE_H, 0, i - 7);
                lemma_mem_lines(i - 7);
            }
        }
    }
    r
}

/// Every member one file towards H.
pub fn east(b: u64) -> (r: u64)
    ensures
        r == (b & NOT_FILE_H) >> 1,
        forall|i: int|
            0 <= i < 64 ==> #[trigger] mem(r, i) == (i + 1 < 64 && mem(b, i + 1) && file_of(i + 1) != 0),
{
    let r = (b & NOT_FILE_H) >> 1;
    proof {
        bv_not_files();
        assert forall|i: int| 0 <= i < 64 implies #[trigger] mem(r, i) == (i + 1 < 64 && mem(b, i + 1)
            && file_of(i + 1) != 0) by {
            lemma_mem_shr(b & NOT_FILE_H, 1, i);
            if i + 1 < 64 {
                lemma_mem_ops(b, !FILE_H, i + 1);
                lemma_mem_ops(FILE_H, 0, i + 1);
                lemma_mem_lines(i + 1);
            }
        }
    }
    r
}

/// Every member one rank down and one file towards H.
pub fn south_east(b: u64) -> (r: u64)
    ensures
        r == (b & NOT_FILE_H) >> 9,
        forall|i: int|
            0 <= i < 64 ==> #[trigger] mem(r, i) == (i + 9 < 64 && mem(b, i + 9) && file_of(i + 9) != 0),
{
    let r = (b & NOT_FILE_H) >> 9;
    proof {
        bv_not_files();
        assert forall|i: int| 0 <= i < 64 implies #[trigger] mem(r, i) == (i + 9 < 64 && mem(b, i + 9)
            && file_of(i + 9) != 0) by {
            lemma_mem_shr(b & NOT_FILE_H, 9, i);
            if i + 9 < 64 {
                lemma_mem_ops(b, !FILE_H, i + 9);
                lemma_mem_ops(FILE_H, 0, i + 9);
                lemma_mem_lines(i + 9);
            }
        }
    }
    r
}

/// Every member one rank down.
pub fn south(b: u64) -> (r: u64)
    ensures
        r == b >> 8,
        forall|i: int| 0 <= i < 64 ==> #[trigger] mem(r, i) == (i + 8 < 64 && mem(b, i + 8)),
{
    let r = b >> 8;
    proof {
        assert forall|i: int| 0 <= i < 64 implies #[trigger] mem(r, i) == (i + 8 < 64 && mem(b, i + 8)) by {
            lemma_mem_shr(b, 8, i);
        }
    }
    r
}

/// Every member one rank down and one file towards A.
pub fn south_west(b: u64) -> (r: u64)
    ensures
        r == (b & NOT_FILE_A) >> 7,
        forall|i: int|
            0 <= i < 64 ==> #[trigger] mem(r, i) == (i + 7 < 64 && mem(b, i + 7) && file_of(i + 7) != 7),
{
    let r = (b & NOT_FILE_A) >> 7;
    proof {
        bv_not_files();
        assert forall|i: int| 0 <= i < 64 implies #[trigger] mem(r, i) == (i + 7 < 64 && mem(b, i + 7)
            && file_of(i + 7) != 7) by {
            lemma_mem_shr(b & NOT_FILE_A, 7, i);
            if i + 7 < 64 {
                lemma_mem_ops(b, !FILE_A, i + 7);
                lemma_mem_ops(FILE_A, 0, i + 7);
                lemma_mem_lines(i + 7);
            }
        }
    }
    r
}

/// Every member one file towards A.
pub fn west(b: u64) -> (r: u64)
    ensures
        r == (b & NOT_FILE_A) << 1,
        forall|i: int|
            0 <= i < 64 ==> #[trigger] mem(r, i) == (i >= 1 && mem(b, i - 1) && file_of(i - 1) != 7),
{
    let r = (b & NOT_FILE_A) << 1;
    proof {
        bv_not_files();
        assert forall|i: int| 0 <= i < 64 implies #[trigger] mem(r, i) == (i >= 1 && mem(b, i - 1)
            && file_of(i - 1) != 7) by {
            lemma_mem_shl(b & NOT_FILE_A, 1, i);
            if i >= 1 {
                lemma_mem_ops(b, !FILE_A, i - 1);
                lemma_mem_ops(FILE_A, 0, i - 1);
                lemma_mem_lines(i - 1);
            }
        }
    }
    r
}

/// Every member one rank up and one file towards A.
pub fn north_west(b: u64) -> (r: u64)
    ensures
        r == (b & NOT_FILE_A) << 9,
        forall|i: int|
            0 <= i < 64 ==> #[trigger] mem(r, i) == (i >= 9 && mem(b, i - 9) && file_of(i - 9) != 7),
{
    let r = (b & NOT_FILE_A) << 9;
    proof {
        bv_not_files();
        assert forall|i: int| 0 <= i < 64 implies #[trigger] mem(r, i) == (i >= 9 && mem(b, i - 9)
            && file_of(i - 9) != 7) by {
            lemma_mem_shl(b & NOT_FILE_A, 9, i);
            if i >= 9 {
                lemma_mem_ops(b, !FILE_A, i - 9);
                lemma_mem_ops(FILE_A, 0, i - 9);
                lemma_mem_lines(i - 9);
            }
        }
    }
    r
}

} // verus!

