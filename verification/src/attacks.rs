//! Attack sets: the steps of knight and king, the rays of bishop and rook,
//! and the tables that answer them by lookup.
use vstd::prelude::*;
use bitintr::Pext;
use crate::bits::{
    file_of, lemma_ext, lemma_mem_lines, lemma_mem_ops, lemma_mem_shl, lemma_mem_shr,
    lemma_mem_single, mem, rank_of, FILE_A, FILE_B, FILE_G, FILE_H,
};
use crate::position::sq_bit;

verus! {

/// The coordinates name a square of the board.
pub open spec fn on_board(x: int, y: int) -> bool {
    0 <= x < 8 && 0 <= y < 8
}

/// One knight's step leads from `s` to `t`.
pub open spec fn knight_step(s: int, t: int) -> bool {
    let dx = file_of(t) - file_of(s);
    let dy = rank_of(t) - rank_of(s);
    &&& 0 <= s < 64
    &&& 0 <= t < 64
    &&& ((dx == 1 || dx == -1) && (dy == 2 || dy == -2)) || ((dx == 2 || dx == -2) && (dy == 1 || dy
        == -1))
}

/// One king's step leads from `s` to `t`.
pub open spec fn king_step(s: int, t: int) -> bool {
    let dx = file_of(t) - file_of(s);
    let dy = rank_of(t) - rank_of(s);
    &&& 0 <= s < 64
    &&& 0 <= t < 64
    &&& s != t
    &&& -1 <= dx <= 1
    &&& -1 <= dy <= 1
}

/// The squares a knight on `s` attacks.
pub open spec fn knight_attacks(s: int) -> u64 {
    let b = sq_bit(s);
    ((b << 15 | b >> 17) & !FILE_A) | ((b << 6 | b >> 10) & !(FILE_A | FILE_B)) | ((b << 17 | b >> 15)
        & !FILE_H) | ((b << 10 | b >> 6) & !(FILE_G | FILE_H))
}

/// The squares a king on `s` attacks.
pub open spec fn king_attacks(s: int) -> u64 {
    let b = sq_bit(s);
    (b << 8) | ((b & !FILE_H) << 7) | ((b & !FILE_H) >> 1) | ((b & !FILE_H) >> 9) | (b >> 8) | ((b
        & !FILE_A) >> 7) | ((b & !FILE_A) << 1) | ((b & !FILE_A) << 9)
}

/// The knight's attack set holds exactly the squares one knight's step away.
pub proof fn lemma_knight_attacks(s: int, t: int)
    requires
        0 <= s < 64,
        0 <= t < 64,
    ensures
        mem(knight_attacks(s), t) == knight_step(s, t),
{
    let b = sq_bit(s);
    lemma_mem_lines(t);
    lemma_mem_ops(FILE_A, FILE_B, t);
    lemma_mem_ops(FILE_G, FILE_H, t);
    lemma_mem_ops(FILE_A, 0, t);
    lemma_mem_ops(FILE_H, 0, t);
    lemma_mem_ops(FILE_A | FILE_B, 0, t);
    lemma_mem_ops(FILE_G | FILE_H, 0, t);
    lemma_mem_shl(b, 15, t);
    lemma_mem_shr(b, 17, t);
    lemma_mem_shl(b, 6, t);
    lemma_mem_shr(b, 10, t);
    lemma_mem_shl(b, 17, t);
    lemma_mem_shr(b, 15, t);
    lemma_mem_shl(b, 10, t);
    lemma_mem_shr(b, 6, t);
    lemma_mem_single(s, t - 15);
    lemma_mem_single(s, t + 17);
    lemma_mem_single(s, t - 6);
    lemma_mem_single(s, t + 10);
    lemma_mem_single(s, t - 17);
    lemma_mem_single(s, t + 15);
    lemma_mem_single(s, t - 10);
    lemma_mem_single(s, t + 6);
    let a1 = b << 15 | b >> 17;
    let a2 = b << 6 | b >> 10;
    let a3 = b << 17 | b >> 15;
    let a4 = b << 10 | b >> 6;
    lemma_mem_ops(b << 15, b >> 17, t);
    lemma_mem_ops(b << 6, b >> 10, t);
    lemma_mem_ops(b << 17, b >> 15, t);
    lemma_mem_ops(b << 10, b >> 6, t);
    lemma_mem_ops(a1, !FILE_A, t);
    lemma_mem_ops(a2, !(FILE_A | FILE_B), t);
    lemma_mem_ops(a3, !FILE_H, t);
    lemma_mem_ops(a4, !(FILE_G | FILE_H), t);
    lemma_mem_ops(a1 & !FILE_A, a2 & !(FILE_A | FILE_B), t);
    lemma_mem_ops((a1 & !FILE_A) | (a2 & !(FILE_A | FILE_B)), a3 & !FILE_H, t);
    lemma_mem_ops(
        ((a1 & !FILE_A) | (a2 & !(FILE_A | FILE_B))) | (a3 & !FILE_H),
        a4 & !(FILE_G | FILE_H),
        t,
    );
}

/// The king's attack set holds exactly the squares one king's step away.
pub proof fn lemma_king_attacks(s: int, t: int)
    requires
        0 <= s < 64,
        0 <= t < 64,
    ensures
        mem(king_attacks(s), t) == king_step(s, t),
{
    let b = sq_bit(s);
    let bh = b & !FILE_H;
    let ba = b & !FILE_A;
    lemma_mem_lines(s);
    lemma_mem_ops(FILE_A, 0, s);
    lemma_mem_ops(FILE_H, 0, s);
    assert forall|i: int| 0 <= i < 64 implies mem(bh, i) == (i == s && file_of(s) != 0) by {
        lemma_mem_single(s, i);
        lemma_mem_ops(b, !FILE_H, i);
        lemma_mem_ops(FILE_H, 0, i);
        lemma_mem_lines(i);
    }
    assert forall|i: int| 0 <= i < 64 implies mem(ba, i) == (i == s && file_of(s) != 7) by {
        lemma_mem_single(s, i);
        lemma_mem_ops(b, !FILE_A, i);
        lemma_mem_ops(FILE_A, 0, i);
        lemma_mem_lines(i);
    }
    lemma_mem_shl(b, 8, t);
    lemma_mem_shl(bh, 7, t);
    lemma_mem_shr(bh, 1, t);
    lemma_mem_shr(bh, 9, t);
    lemma_mem_shr(b, 8, t);
    lemma_mem_shr(ba, 7, t);
    lemma_mem_shl(ba, 1, t);
    lemma_mem_shl(ba, 9, t);
    lemma_mem_single(s, t - 8);
    lemma_mem_single(s, t + 8);
    let u1 = b << 8;
    let u2 = u1 | (bh << 7);
    let u3 = u2 | (bh >> 1);
    let u4 = u3 | (bh >> 9);
    let u5 = u4 | (b >> 8);
    let u6 = u5 | (ba >> 7);
    let u7 = u6 | (ba << 1);
    lemma_mem_ops(u1, bh << 7, t);
    lemma_mem_ops(u2, bh >> 1, t);
    lemma_mem_ops(u3, bh >> 9, t);
    lemma_mem_ops(u4, b >> 8, t);
    lemma_mem_ops(u5, ba >> 7, t);
    lemma_mem_ops(u6, ba << 1, t);
    lemma_mem_ops(u7, ba << 9, t);
}

/// The squares seen from `(x, y)` along the direction `(dx, dy)` over the
/// occupied squares `occ`, at most `n` steps far: every square up to and
/// including the first occupied one.
pub open spec fn ray_from(x: int, y: int, dx: int, dy: int, occ: u64, n: nat) -> u64
    decreases n,
{
    if n == 0 || !on_board(x + dx, y + dy) {
        0
    } else {
        let s = 8 * (y + dy) + (x + dx);
        sq_bit(s) | (if mem(occ, s) {
            0
        } else {
            ray_from(x + dx, y + dy, dx, dy, occ, (n - 1) as nat)
        })
    }
}

/// The squares along the direction `(dx, dy)` from `(x, y)` whose occupancy
/// can shorten the ray: all but the last square of the board on that line.
pub open spec fn ray_mask(x: int, y: int, dx: int, dy: int, n: nat) -> u64
    decreases n,
{
    if n == 0 || !on_board(x + 2 * dx, y + 2 * dy) {
        0
    } else {
        sq_bit(8 * (y + dy) + (x + dx)) | ray_mask(x + dx, y + dy, dx, dy, (n - 1) as nat)
    }
}

/// The squares a rook on `s` attacks over the occupied squares `occ`.
pub open spec fn rook_attacks(s: int, occ: u64) -> u64 {
    let x = file_of(s);
    let y = rank_of(s);
    ray_from(x, y, 1, 0, occ, 7) | ray_from(x, y, 0, 1, occ, 7) | ray_from(x, y, -1, 0, occ, 7)
        | ray_from(x, y, 0, -1, occ, 7)
}

/// The squares a bishop on `s` attacks over the occupied squares `occ`.
pub open spec fn bishop_attacks(s: int, occ: u64) -> u64 {
    let x = file_of(s);
    let y = rank_of(s);
    ray_from(x, y, 1, 1, occ, 7) | ray_from(x, y, -1, 1, occ, 7) | ray_from(x, y, -1, -1, occ, 7)
        | ray_from(x, y, 1, -1, occ, 7)
}

/// The squares a queen on `s` attacks over the occupied squares `occ`.
pub open spec fn queen_attacks(s: int, occ: u64) -> u64 {
    rook_attacks(s, occ) | bishop_attacks(s, occ)
}

/// The blocker mask of a rook on `s`.
pub open spec fn rook_mask(s: int) -> u64 {
    let x = file_of(s);
    let y = rank_of(s);
    ray_mask(x, y, 1, 0, 7) | ray_mask(x, y, 0, 1, 7) | ray_mask(x, y, -1, 0, 7) | ray_mask(
        x,
        y,
        0,
        -1,
        7,
    )
}

/// The blocker mask of a bishop on `s`.
pub open spec fn bishop_mask(s: int) -> u64 {
    let x = file_of(s);
    let y = rank_of(s);
    ray_mask(x, y, 1, 1, 7) | ray_mask(x, y, -1, 1, 7) | ray_mask(x, y, -1, -1, 7) | ray_mask(
        x,
        y,
        1,
        -1,
        7,
    )
}

/// A direction: one step along a line or a diagonal.
pub open spec fn is_direction(dx: int, dy: int) -> bool {
    -1 <= dx <= 1 && -1 <= dy <= 1 && (dx != 0 || dy != 0)
}

/// Traces a ray.
pub fn ray_scan(x: i32, y: i32, dx: i32, dy: i32, occ: u64, n: u32) -> (r: u64)
    requires
        on_board(x as int, y as int),
        is_direction(dx as int, dy as int),
        n <= 7,
    ensures
        r == ray_from(x as int, y as int, dx as int, dy as int, occ, n as nat),
    decreases n,
{
    let nx = x + dx;
    let ny = y + dy;
    if n == 0 || nx < 0 || nx >= 8 || ny < 0 || ny >= 8 {
        return 0;
    }
    let pos = (8 * ny + nx) as usize;
    let mut moves: u64 = 0;
    crate::bits::set_bit(&mut moves, pos);
    proof {
        lemma_or_zero(sq_bit(pos as int));
    }
    if crate::bits::get_bit(occ, pos) != 0 {
        moves
    } else {
        moves | ray_scan(nx, ny, dx, dy, occ, n - 1)
    }
}

/// Collects the squares whose occupancy can shorten a ray.
pub fn mask_scan(x: i32, y: i32, dx: i32, dy: i32, n: u32) -> (r: u64)
    requires
        on_board(x as int, y as int),
        is_direction(dx as int, dy as int),
        n <= 7,
    ensures
        r == ray_mask(x as int, y as int, dx as int, dy as int, n as nat),
    decreases n,
{
    let nx = x + 2 * dx;
    let ny = y + 2 * dy;
    if n == 0 || nx < 0 || nx >= 8 || ny < 0 || ny >= 8 {
        return 0;
    }
    let s = (8 * (y + dy) + (x + dx)) as u64;
    (1u64 << s) | mask_scan(x + dx, y + dy, dx, dy, n - 1)
}

proof fn lemma_or_zero(a: u64)
    by (bit_vector)
    ensures
        a | 0 == a,
        0 | a == a,
{
}

/// `k` steps in the direction `d`.
pub open spec fn steps(d: int, k: int) -> int {
    if d == 0 {
        0
    } else if d == 1 {
        k
    } else {
        -k
    }
}

/// The square `k` steps from `(x, y)` in the direction `(dx, dy)`.
pub open spec fn step_square(x: int, y: int, dx: int, dy: int, k: int) -> int {
    8 * (y + steps(dy, k)) + (x + steps(dx, k))
}

/// How many steps in the direction `(dx, dy)` lead from `(x, y)` to the
/// square `t`, if any do.
pub open spec fn distance(x: int, y: int, dx: int, dy: int, t: int) -> int {
    if dx == 1 {
        file_of(t) - x
    } else if dx == -1 {
        x - file_of(t)
    } else if dy == 1 {
        rank_of(t) - y
    } else {
        y - rank_of(t)
    }
}

/// No square strictly between `(x, y)` and the square `k` steps away is
/// occupied.
pub open spec fn clear_run(x: int, y: int, dx: int, dy: int, occ: u64, k: int) -> bool {
    forall|j: int| 1 <= j < k ==> !mem(occ, #[trigger] step_square(x, y, dx, dy, j))
}

/// The square `t` is seen from `(x, y)` in the direction `(dx, dy)` within
/// `n` steps: it lies on that line, and nothing stands in between.
pub open spec fn sees(x: int, y: int, dx: int, dy: int, occ: u64, n: int, t: int) -> bool {
    let k = distance(x, y, dx, dy, t);
    &&& 0 <= t < 64
    &&& 1 <= k <= n
    &&& file_of(t) == x + steps(dx, k)
    &&& rank_of(t) == y + steps(dy, k)
    &&& clear_run(x, y, dx, dy, occ, k)
}

/// A ray holds exactly the squares that are seen along it.
pub proof fn lemma_ray_members(x: int, y: int, dx: int, dy: int, occ: u64, n: nat, t: int)
    requires
        on_board(x, y),
        is_direction(dx, dy),
        0 <= t < 64,
    ensures
        mem(ray_from(x, y, dx, dy, occ, n), t) == sees(x, y, dx, dy, occ, n as int, t),
    decreases n,
{
    let k = distance(x, y, dx, dy, t);
    if n == 0 || !on_board(x + dx, y + dy) {
        lemma_mem_ops(0, 0, t);
    } else {
        let x1 = x + dx;
        let y1 = y + dy;
        let s1 = 8 * y1 + x1;
        let m1 = (n - 1) as nat;
        let rest = if mem(occ, s1) {
            0
        } else {
            ray_from(x1, y1, dx, dy, occ, m1)
        };
        lemma_mem_single(s1, t);
        lemma_mem_ops(sq_bit(s1), rest, t);
        lemma_mem_ops(0, 0, t);
        lemma_ray_members(x1, y1, dx, dy, occ, m1, t);
        assert(step_square(x, y, dx, dy, 1) == s1);
        let k1 = distance(x1, y1, dx, dy, t);
        assert(k1 == k - 1);
        if k >= 2 && file_of(t) == x + steps(dx, k) && rank_of(t) == y + steps(dy, k) {
            if clear_run(x, y, dx, dy, occ, k) {
                assert(!mem(occ, step_square(x, y, dx, dy, 1)));
                assert forall|j: int| 1 <= j < k1 implies !mem(occ, #[trigger] step_square(x1, y1, dx, dy, j)) by {
                    assert(step_square(x1, y1, dx, dy, j) == step_square(x, y, dx, dy, j + 1));
                }
            }
            if !mem(occ, s1) && clear_run(x1, y1, dx, dy, occ, k1) {
                assert forall|j: int| 1 <= j < k implies !mem(occ, #[trigger] step_square(x, y, dx, dy, j)) by {
                    if j >= 2 {
                        assert(step_square(x1, y1, dx, dy, j - 1) == step_square(x, y, dx, dy, j));
                    }
                }
            }
        }
    }
}

/// Seeing goes both ways: if `t` is seen from `s` in one direction, `s` is
/// seen from `t` in the opposite one.
pub proof fn lemma_sees_back(s: int, dx: int, dy: int, occ: u64, t: int)
    requires
        0 <= s < 64,
        is_direction(dx, dy),
        sees(file_of(s), rank_of(s), dx, dy, occ, 7, t),
    ensures
        sees(file_of(t), rank_of(t), -dx, -dy, occ, 7, s),
{
    let x = file_of(s);
    let y = rank_of(s);
    let tx = file_of(t);
    let ty = rank_of(t);
    let k = distance(x, y, dx, dy, t);
    assert(distance(tx, ty, -dx, -dy, s) == k);
    assert forall|j: int| 1 <= j < k implies !mem(occ, #[trigger] step_square(tx, ty, -dx, -dy, j)) by {
        assert(step_square(tx, ty, -dx, -dy, j) == step_square(x, y, dx, dy, k - j));
    }
}

/// A ray in one direction and the ray back.
proof fn lemma_ray_back(s: int, dx: int, dy: int, occ: u64, t: int)
    requires
        0 <= s < 64,
        0 <= t < 64,
        is_direction(dx, dy),
        mem(ray_from(file_of(s), rank_of(s), dx, dy, occ, 7), t),
    ensures
        mem(ray_from(file_of(t), rank_of(t), -dx, -dy, occ, 7), s),
{
    lemma_ray_members(file_of(s), rank_of(s), dx, dy, occ, 7, t);
    lemma_sees_back(s, dx, dy, occ, t);
    lemma_ray_members(file_of(t), rank_of(t), -dx, -dy, occ, 7, s);
}

/// A rook on `s` attacks `t` if and only if a rook on `t` attacks `s`.
pub proof fn lemma_rook_attacks_back(s: int, t: int, occ: u64)
    requires
        0 <= s < 64,
        0 <= t < 64,
        mem(rook_attacks(s, occ), t),
    ensures
        mem(rook_attacks(t, occ), s),
{
    let x = file_of(s);
    let y = rank_of(s);
    let a = ray_from(x, y, 1, 0, occ, 7);
    let b = ray_from(x, y, 0, 1, occ, 7);
    let c = ray_from(x, y, -1, 0, occ, 7);
    let d = ray_from(x, y, 0, -1, occ, 7);
    lemma_mem_ops(a, b, t);
    lemma_mem_ops(a | b, c, t);
    lemma_mem_ops((a | b) | c, d, t);
    let u = file_of(t);
    let v = rank_of(t);
    let a2 = ray_from(u, v, 1, 0, occ, 7);
    let b2 = ray_from(u, v, 0, 1, occ, 7);
    let c2 = ray_from(u, v, -1, 0, occ, 7);
    let d2 = ray_from(u, v, 0, -1, occ, 7);
    lemma_mem_ops(a2, b2, s);
    lemma_mem_ops(a2 | b2, c2, s);
    lemma_mem_ops((a2 | b2) | c2, d2, s);
    if mem(a, t) {
        lemma_ray_back(s, 1, 0, occ, t);
    } else if mem(b, t) {
        lemma_ray_back(s, 0, 1, occ, t);
    } else if mem(c, t) {
        lemma_ray_back(s, -1, 0, occ, t);
    } else {
        lemma_ray_back(s, 0, -1, occ, t);
    }
}

/// A bishop on `s` attacks `t` if and only if a bishop on `t` attacks `s`.
pub proof fn lemma_bishop_attacks_back(s: int, t: int, occ: u64)
    requires
        0 <= s < 64,
        0 <= t < 64,
        mem(bishop_attacks(s, occ), t),
    ensures
        mem(bishop_attacks(t, occ), s),
{
    let x = file_of(s);
    let y = rank_of(s);
    let a = ray_from(x, y, 1, 1, occ, 7);
    let b = ray_from(x, y, -1, 1, occ, 7);
    let c = ray_from(x, y, -1, -1, occ, 7);
    let d = ray_from(x, y, 1, -1, occ, 7);
    lemma_mem_ops(a, b, t);
    lemma_mem_ops(a | b, c, t);
    lemma_mem_ops((a | b) | c, d, t);
    let u = file_of(t);
    let v = rank_of(t);
    let a2 = ray_from(u, v, 1, 1, occ, 7);
    let b2 = ray_from(u, v, -1, 1, occ, 7);
    let c2 = ray_from(u, v, -1, -1, occ, 7);
    let d2 = ray_from(u, v, 1, -1, occ, 7);
    lemma_mem_ops(a2, b2, s);
    lemma_mem_ops(a2 | b2, c2, s);
    lemma_mem_ops((a2 | b2) | c2, d2, s);
    if mem(a, t) {
        lemma_ray_back(s, 1, 1, occ, t);
    } else if mem(b, t) {
        lemma_ray_back(s, -1, 1, occ, t);
    } else if mem(c, t) {
        lemma_ray_back(s, -1, -1, occ, t);
    } else {
        lemma_ray_back(s, 1, -1, occ, t);
    }
}

/// The square `t` lies ahead of `(x, y)` in the direction `(dx, dy)`.
pub open spec fn ahead(x: int, y: int, dx: int, dy: int, t: int) -> bool {
    if dx == 1 {
        file_of(t) > x
    } else if dx == -1 {
        file_of(t) < x
    } else if dy == 1 {
        rank_of(t) > y
    } else {
        rank_of(t) < y
    }
}

/// Every square of a ray's mask lies ahead of the square that the ray
/// starts from.
pub proof fn lemma_ray_mask_ahead(x: int, y: int, dx: int, dy: int, n: nat, t: int)
    requires
        on_board(x, y),
        is_direction(dx, dy),
        0 <= t < 64,
        mem(ray_mask(x, y, dx, dy, n), t),
    ensures
        ahead(x, y, dx, dy, t),
    decreases n,
{
    if n == 0 || !on_board(x + 2 * dx, y + 2 * dy) {
        lemma_mem_ops(0, 0, t);
    } else {
        let s = 8 * (y + dy) + (x + dx);
        let rest = ray_mask(x + dx, y + dy, dx, dy, (n - 1) as nat);
        lemma_mem_single(s, t);
        lemma_mem_ops(sq_bit(s), rest, t);
        if mem(rest, t) {
            lemma_ray_mask_ahead(x + dx, y + dy, dx, dy, (n - 1) as nat, t);
        }
    }
}

proof fn bv_full()
    by (bit_vector)
    ensures
        !0u64 == 0xffff_ffff_ffff_ffffu64,
{
}

/// The blocker masks of a square do not hold the square itself, so they are
/// never the set of all squares.
pub proof fn lemma_masks_not_full(s: int)
    requires
        0 <= s < 64,
    ensures
        !mem(rook_mask(s), s),
        !mem(bishop_mask(s), s),
        rook_mask(s) != u64::MAX,
        bishop_mask(s) != u64::MAX,
{
    let x = file_of(s);
    let y = rank_of(s);
    let a = ray_mask(x, y, 1, 0, 7);
    let b = ray_mask(x, y, 0, 1, 7);
    let c = ray_mask(x, y, -1, 0, 7);
    let d = ray_mask(x, y, 0, -1, 7);
    lemma_mem_ops(a, b, s);
    lemma_mem_ops(a | b, c, s);
    lemma_mem_ops((a | b) | c, d, s);
    if mem(a, s) {
        lemma_ray_mask_ahead(x, y, 1, 0, 7, s);
    }
    if mem(b, s) {
        lemma_ray_mask_ahead(x, y, 0, 1, 7, s);
    }
    if mem(c, s) {
        lemma_ray_mask_ahead(x, y, -1, 0, 7, s);
    }
    if mem(d, s) {
        lemma_ray_mask_ahead(x, y, 0, -1, 7, s);
    }
    let e = ray_mask(x, y, 1, 1, 7);
    let f = ray_mask(x, y, -1, 1, 7);
    let g = ray_mask(x, y, -1, -1, 7);
    let h = ray_mask(x, y, 1, -1, 7);
    lemma_mem_ops(e, f, s);
    lemma_mem_ops(e | f, g, s);
    lemma_mem_ops((e | f) | g, h, s);
    if mem(e, s) {
        lemma_ray_mask_ahead(x, y, 1, 1, 7, s);
    }
    if mem(f, s) {
        lemma_ray_mask_ahead(x, y, -1, 1, 7, s);
    }
    if mem(g, s) {
        lemma_ray_mask_ahead(x, y, -1, -1, 7, s);
    }
    if mem(h, s) {
        lemma_ray_mask_ahead(x, y, 1, -1, 7, s);
    }
    bv_full();
    lemma_mem_ops(0, 0, s);
}

/// Occupied squares outside the mask do not change a ray.
pub proof fn lemma_ray_masked(x: int, y: int, dx: int, dy: int, occ: u64, mask: u64, n: nat)
    requires
        on_board(x, y),
        is_direction(dx, dy),
        forall|i: int| 0 <= i < 64 && mem(ray_mask(x, y, dx, dy, n), i) ==> mem(mask, i),
    ensures
        ray_from(x, y, dx, dy, occ & mask, n) == ray_from(x, y, dx, dy, occ, n),
    decreases n,
{
    if n == 0 || !on_board(x + dx, y + dy) {
    } else {
        let s = 8 * (y + dy) + (x + dx);
        lemma_mem_ops(occ, mask, s);
        let m1 = (n - 1) as nat;
        if !on_board(x + 2 * dx, y + 2 * dy) {
            // nothing lies beyond `s`
            assert(ray_from(x + dx, y + dy, dx, dy, occ, m1) == 0);
            assert(ray_from(x + dx, y + dy, dx, dy, occ & mask, m1) == 0);
        } else {
            let rest = ray_mask(x + dx, y + dy, dx, dy, m1);
            assert forall|i: int| 0 <= i < 64 implies #[trigger] mem(ray_mask(x, y, dx, dy, n), i) == (i
                == s || mem(rest, i)) by {
                lemma_mem_single(s, i);
                lemma_mem_ops(sq_bit(s), rest, i);
            }
            assert(0 <= s < 64);
            assert(mem(ray_mask(x, y, dx, dy, n), s));
            assert(mem(mask, s));
            lemma_ray_masked(x + dx, y + dy, dx, dy, occ, mask, m1);
        }
    }
}

/// Occupied squares outside the blocker mask do not change a rook's attacks.
pub proof fn lemma_rook_masked(s: int, occ: u64)
    requires
        0 <= s < 64,
    ensures
        rook_attacks(s, occ & rook_mask(s)) == rook_attacks(s, occ),
{
    let x = file_of(s);
    let y = rank_of(s);
    let m = rook_mask(s);
    let a = ray_mask(x, y, 1, 0, 7);
    let b = ray_mask(x, y, 0, 1, 7);
    let c = ray_mask(x, y, -1, 0, 7);
    let d = ray_mask(x, y, 0, -1, 7);
    assert forall|i: int| 0 <= i < 64 implies mem(m, i) == (mem(a, i) || mem(b, i) || mem(c, i) || mem(
        d,
        i,
    )) by {
        lemma_mem_ops(a, b, i);
        lemma_mem_ops(a | b, c, i);
        lemma_mem_ops((a | b) | c, d, i);
    }
    lemma_ray_masked(x, y, 1, 0, occ, m, 7);
    lemma_ray_masked(x, y, 0, 1, occ, m, 7);
    lemma_ray_masked(x, y, -1, 0, occ, m, 7);
    lemma_ray_masked(x, y, 0, -1, occ, m, 7);
}

/// Occupied squares outside the blocker mask do not change a bishop's attacks.
pub proof fn lemma_bishop_masked(s: int, occ: u64)
    requires
        0 <= s < 64,
    ensures
        bishop_attacks(s, occ & bishop_mask(s)) == bishop_attacks(s, occ),
{
    let x = file_of(s);
    let y = rank_of(s);
    let m = bishop_mask(s);
    let a = ray_mask(x, y, 1, 1, 7);
    let b = ray_mask(x, y, -1, 1, 7);
    let c = ray_mask(x, y, -1, -1, 7);
    let d = ray_mask(x, y, 1, -1, 7);
    assert forall|i: int| 0 <= i < 64 implies mem(m, i) == (mem(a, i) || mem(b, i) || mem(c, i) || mem(
        d,
        i,
    )) by {
        lemma_mem_ops(a, b, i);
        lemma_mem_ops(a | b, c, i);
        lemma_mem_ops((a | b) | c, d, i);
    }
    lemma_ray_masked(x, y, 1, 1, occ, m, 7);
    lemma_ray_masked(x, y, -1, 1, occ, m, 7);
    lemma_ray_masked(x, y, -1, -1, occ, m, 7);
    lemma_ray_masked(x, y, 1, -1, occ, m, 7);
}

/// A rook's attacks, ray by ray.
pub fn scan_rook(square: usize, occ: u64) -> (r: u64)
    requires
        square < 64,
    ensures
        r == rook_attacks(square as int, occ),
{
    let x = (square % 8) as i32;
    let y = (square / 8) as i32;
    ray_scan(x, y, 1, 0, occ, 7) | ray_scan(x, y, 0, 1, occ, 7) | ray_scan(x, y, -1, 0, occ, 7)
        | ray_scan(x, y, 0, -1, occ, 7)
}

/// A bishop's attacks, ray by ray.
pub fn scan_bishop(square: usize, occ: u64) -> (r: u64)
    requires
        square < 64,
    ensures
        r == bishop_attacks(square as int, occ),
{
    let x = (square % 8) as i32;
    let y = (square / 8) as i32;
    ray_scan(x, y, 1, 1, occ, 7) | ray_scan(x, y, -1, 1, occ, 7) | ray_scan(x, y, -1, -1, occ, 7)
        | ray_scan(x, y, 1, -1, occ, 7)
}

/// The blocker mask of a rook.
pub fn gen_rook_blocker_mask(square: usize) -> (r: u64)
    requires
        square < 64,
    ensures
        r == rook_mask(square as int),
{
    let x = (square % 8) as i32;
    let y = (square / 8) as i32;
    mask_scan(x, y, 1, 0, 7) | mask_scan(x, y, 0, 1, 7) | mask_scan(x, y, -1, 0, 7) | mask_scan(
        x,
        y,
        0,
        -1,
        7,
    )
}

/// The blocker mask of a bishop.
pub fn gen_bishop_blocker_mask(square: usize) -> (r: u64)
    requires
        square < 64,
    ensures
        r == bishop_mask(square as int),
{
    let x = (square % 8) as i32;
    let y = (square / 8) as i32;
    mask_scan(x, y, 1, 1, 7) | mask_scan(x, y, -1, 1, 7) | mask_scan(x, y, -1, -1, 7) | mask_scan(
        x,
        y,
        1,
        -1,
        7,
    )
}

/// The knight's attack set.
pub fn gen_knight_moves(square: usize) -> (r: u64)
    requires
        square < 64,
    ensures
        r == knight_attacks(square as int),
{
    let b: u64 = 1u64 << (square as u64);
    ((b << 15 | b >> 17) & !FILE_A) | ((b << 6 | b >> 10) & !(FILE_A | FILE_B)) | ((b << 17 | b >> 15)
        & !FILE_H) | ((b << 10 | b >> 6) & !(FILE_G | FILE_H))
}

/// The king's attack set.
pub fn gen_king_moves(square: usize) -> (r: u64)
    requires
        square < 64,
    ensures
        r == king_attacks(square as int),
{
    let b: u64 = 1u64 << (square as u64);
    (b << 8) | ((b & !FILE_H) << 7) | ((b & !FILE_H) >> 1) | ((b & !FILE_H) >> 9) | (b >> 8) | ((b
        & !FILE_A) >> 7) | ((b & !FILE_A) << 1) | ((b & !FILE_A) << 9)
}

/// The number of members of `m` below the square `i`.
pub open spec fn count_below(m: u64, i: int) -> int
    decreases i,
{
    if i <= 0 {
        0
    } else {
        count_below(m, i - 1) + if mem(m, i - 1) {
            1int
        } else {
            0int
        }
    }
}

/// Parallel bits extract, for the squares below `i`: where `m` has its
/// `k`-th member (counting from 0, lowest first), the result has the square
/// `k` if and only if `v` has that member.
pub open spec fn extract_upto(v: u64, m: u64, i: int) -> u64
    decreases i,
{
    if i <= 0 {
        0
    } else if mem(m, i - 1) && mem(v, i - 1) {
        extract_upto(v, m, i - 1) | sq_bit(count_below(m, i - 1))
    } else {
        extract_upto(v, m, i - 1)
    }
}

/// Parallel bits extract: the bits of `v` at the members of `m`, gathered
/// into the low bits of the result in the same order.
pub open spec fn extract(v: u64, m: u64) -> u64 {
    extract_upto(v, m, 64)
}

/// Parallel bits deposit, for the squares below `i`.
pub open spec fn deposit_upto(x: u64, m: u64, i: int) -> u64
    decreases i,
{
    if i <= 0 {
        0
    } else if mem(m, i - 1) && mem(x, count_below(m, i - 1)) {
        deposit_upto(x, m, i - 1) | sq_bit(i - 1)
    } else {
        deposit_upto(x, m, i - 1)
    }
}

/// Parallel bits deposit: the low bits of `x`, scattered to the members of
/// `m` in the same order.
pub open spec fn deposit(x: u64, m: u64) -> u64 {
    deposit_upto(x, m, 64)
}

/// Counting members goes up with the square, by one at each member.
pub proof fn lemma_count_below(m: u64, i: int, j: int)
    requires
        0 <= i <= j,
    ensures
        0 <= count_below(m, i) <= i,
        count_below(m, i) <= count_below(m, j),
        i < j && mem(m, i) ==> count_below(m, i) < count_below(m, j),
    decreases j,
{
    if i < j {
        lemma_count_below(m, i, j - 1);
    } else {
        if i > 0 {
            lemma_count_below(m, i - 1, i - 1);
        }
    }
}

/// The members of a deposit.
pub proof fn lemma_deposit_upto(x: u64, m: u64, i: int, j: int)
    requires
        0 <= i <= 64,
    ensures
        mem(deposit_upto(x, m, i), j) == (0 <= j < i && mem(m, j) && mem(x, count_below(m, j))),
    decreases i,
{
    if i <= 0 {
        if 0 <= j < 64 {
            lemma_mem_ops(0, 0, j);
        }
    } else {
        lemma_deposit_upto(x, m, i - 1, j);
        if mem(m, i - 1) && mem(x, count_below(m, i - 1)) {
            lemma_mem_single(i - 1, j);
            if 0 <= j < 64 {
                lemma_mem_ops(deposit_upto(x, m, i - 1), sq_bit(i - 1), j);
            }
        }
    }
}

/// The members of an extract: the `k`-th member of the mask decides the
/// square `k`, and no square from the number of members on is set.
pub proof fn lemma_extract_upto(v: u64, m: u64, i: int)
    requires
        0 <= i <= 64,
    ensures
        forall|j: int|
            0 <= j < i && mem(m, j) ==> (mem(extract_upto(v, m, i), #[trigger] count_below(m, j)) <==> mem(
                v,
                j,
            )),
        forall|k: int| count_below(m, i) <= k < 64 ==> !#[trigger] mem(extract_upto(v, m, i), k),
    decreases i,
{
    let cur = extract_upto(v, m, i);
    if i <= 0 {
        assert forall|k: int| 0 <= k < 64 implies !#[trigger] mem(cur, k) by {
            lemma_mem_ops(0, 0, k);
        }
    } else {
        lemma_extract_upto(v, m, i - 1);
        let prev = extract_upto(v, m, i - 1);
        let c = count_below(m, i - 1);
        lemma_count_below(m, i - 1, i - 1);
        let added = mem(m, i - 1) && mem(v, i - 1);
        assert forall|k: int| 0 <= k < 64 implies #[trigger] mem(cur, k) == (mem(prev, k) || (added && k
            == c)) by {
            if added {
                lemma_mem_single(c, k);
                lemma_mem_ops(prev, sq_bit(c), k);
            }
        }
        assert forall|k: int| count_below(m, i) <= k < 64 implies !#[trigger] mem(cur, k) by {
            assert(!mem(prev, k));
        }
        assert forall|j: int| 0 <= j < i && mem(m, j) implies (mem(cur, #[trigger] count_below(m, j))
            <==> mem(v, j)) by {
            let cj = count_below(m, j);
            lemma_count_below(m, j, i - 1);
            lemma_count_below(m, j, j);
            assert(mem(cur, cj) == (mem(prev, cj) || (added && cj == c)));
            if j == i - 1 {
                assert(!mem(prev, c));
            } else {
                assert(cj < c);
                assert(mem(prev, cj) <==> mem(v, j));
            }
        }
    }
}

/// Extracting under a mask and depositing again keeps the members of the
/// mask and drops the rest.
pub proof fn lemma_deposit_extract(v: u64, m: u64)
    ensures
        deposit(extract(v, m), m) == v & m,
{
    let x = extract(v, m);
    lemma_extract_upto(v, m, 64);
    assert forall|j: int| 0 <= j < 64 implies mem(deposit(x, m), j) == mem(v & m, j) by {
        lemma_deposit_upto(x, m, 64, j);
        lemma_mem_ops(v, m, j);
    }
    lemma_ext(deposit(x, m), v & m);
}

/// `Pext::pext` of `bitintr` on `u64`: the bits of `value` at the set
/// positions of `mask`, gathered into the low bits of the result, lowest
/// first; the other bits of the result are zero. A mask of all 64 squares is
/// left out: without the hardware instruction the crate counts the members
/// of the mask in a way that overflows on the 64th.
#[verifier::external_body]
fn extract_bits(value: u64, mask: u64) -> (r: u64)
    requires
        mask != u64::MAX,
    ensures
        r == extract(value, mask),
{
    value.pext(mask)
}

/// Where the mask has no member from `i` up to `j`, nothing is extracted
/// and nothing counted between them.
pub proof fn lemma_extract_skip(v: u64, m: u64, i: int, j: int)
    requires
        0 <= i <= j <= 64,
        forall|k: int| i <= k < j ==> !mem(m, k),
    ensures
        extract_upto(v, m, j) == extract_upto(v, m, i),
        count_below(m, j) == count_below(m, i),
    decreases j - i,
{
    if i < j {
        lemma_extract_skip(v, m, i, j - 1);
    }
}

/// Parallel bits extract in software: the bits of `value` at the members of
/// `mask`, gathered into the low bits of the result, lowest first.
pub fn slow_const_pext(value: u64, mask: u64) -> (res: u64)
    ensures
        res == extract(value, mask),
{
    let mut rest = mask;
    let mut res: u64 = 0;
    let mut bb: u64 = 1;
    proof {
        crate::bits::lemma_lsb(rest);
        lemma_extract_skip(value, mask, 0, crate::bits::lsb(rest));
        assert(sq_bit(0) == 1) by {
            lemma_shift_one(0);
        }
    }
    while rest != 0
        invariant
            0 <= crate::bits::lsb(rest) <= 64,
            forall|j: int| 0 <= j < 64 ==> mem(rest, j) == (mem(mask, j) && j >= crate::bits::lsb(rest)),
            res == extract_upto(value, mask, crate::bits::lsb(rest)),
            count_below(mask, crate::bits::lsb(rest)) < 64 ==> bb == sq_bit(
                count_below(mask, crate::bits::lsb(rest)),
            ),
        decreases 64 - crate::bits::lsb(rest),
    {
        let ghost before = rest;
        let ghost taken = count_below(mask, crate::bits::lsb(rest));
        let t = crate::bits::pop_lsb(&mut rest);
        proof {
            lemma_count_below(mask, t as int, t as int);
            crate::board::lemma_single_hit(value, t as int);
            crate::bits::lemma_lsb(rest);
            let next = crate::bits::lsb(rest);
            if rest != 0 {
                assert(mem(rest, next));
            }
            assert(mem(mask, t as int));
            assert forall|k: int| t + 1 <= k < next implies !mem(mask, k) by {
                assert(!mem(rest, k));
            }
            lemma_extract_skip(value, mask, t + 1, next);
            if taken < 63 {
                lemma_shift_one(taken);
            }
        }
        if value & (1u64 << (t as u64)) != 0 {
            res = res | bb;
        }
        bb = bb << 1;
    }
    res
}

/// Shifting the one-square set of `c` by one gives that of `c + 1`.
proof fn lemma_shift_one(c: int)
    requires
        0 <= c < 63,
    ensures
        sq_bit(c) << 1 == sq_bit(c + 1),
        sq_bit(0) == 1,
{
    assert forall|i: int| 0 <= i < 64 implies mem(sq_bit(c) << 1, i) == mem(sq_bit(c + 1), i) by {
        lemma_mem_shl(sq_bit(c), 1, i);
        lemma_mem_single(c, i - 1);
        lemma_mem_single(c + 1, i);
    }
    lemma_ext(sq_bit(c) << 1, sq_bit(c + 1));
    assert(1u64 << 0u64 == 1u64) by (bit_vector);
}

/// Scatters the low bits of `x` to the members of `mask`.
pub fn deposit_bits(x: u64, mask: u64) -> (r: u64)
    ensures
        r == deposit(x, mask),
{
    let mut r: u64 = 0;
    let mut taken: u32 = 0;
    let mut i: u32 = 0;
    while i < 64
        invariant
            i <= 64,
            taken == count_below(mask, i as int),
            r == deposit_upto(x, mask, i as int),
        decreases 64 - i,
    {
        proof {
            lemma_count_below(mask, i as int, i as int);
            crate::board::lemma_single_hit(mask, i as int);
            crate::board::lemma_single_hit(x, taken as int);
        }
        if mask & (1u64 << (i as u64)) != 0 {
            if x & (1u64 << (taken as u64)) != 0 {
                r = r | (1u64 << (i as u64));
            }
            taken += 1;
        }
        i += 1;
    }
    r
}

/// Two to the power of `n`.
pub open spec fn two_to(n: nat) -> nat
    decreases n,
{
    if n == 0 {
        1
    } else {
        2 * two_to((n - 1) as nat)
    }
}

/// The number of entries of the table row of a mask with `count` members:
/// one for each subset of the mask, as long as the mask has at most twelve
/// members.
pub open spec fn row_size(count: int) -> nat {
    if 0 <= count <= 12 {
        two_to(count as nat)
    } else {
        0
    }
}

proof fn bv_double(b: u64)
    by (bit_vector)
    requires
        b < 0x8000_0000_0000_0000,
    ensures
        b << 1 == 2 * b,
{
}

/// The one-square set of a square below thirteen, as a number.
proof fn lemma_two_to(n: int)
    requires
        0 <= n <= 12,
    ensures
        sq_bit(n) == two_to(n as nat),
        two_to(n as nat) <= 4096,
    decreases n,
{
    reveal_with_fuel(two_to, 14);
    if n == 0 {
        lemma_shift_one(0);
    } else {
        lemma_two_to(n - 1);
        lemma_shift_one(n - 1);
        bv_double(sq_bit(n - 1));
    }
}

/// How many members `mask` has.
fn count_bits(mask: u64) -> (n: u32)
    ensures
        n == count_below(mask, 64),
        n <= 64,
{
    let mut rest = mask;
    let mut n: u32 = 0;
    proof {
        crate::bits::lemma_lsb(rest);
        lemma_extract_skip(0, mask, 0, crate::bits::lsb(rest));
    }
    while rest != 0
        invariant
            0 <= crate::bits::lsb(rest) <= 64,
            forall|j: int| 0 <= j < 64 ==> mem(rest, j) == (mem(mask, j) && j >= crate::bits::lsb(rest)),
            n == count_below(mask, crate::bits::lsb(rest)),
            n <= crate::bits::lsb(rest),
        decreases 64 - crate::bits::lsb(rest),
    {
        let ghost before = rest;
        let t = crate::bits::pop_lsb(&mut rest);
        proof {
            lemma_count_below(mask, t as int, t as int);
            crate::bits::lemma_lsb(rest);
            let next = crate::bits::lsb(rest);
            if rest != 0 {
                assert(mem(rest, next));
            }
            assert(mem(mask, t as int));
            assert forall|k: int| t + 1 <= k < next implies !mem(mask, k) by {
                assert(!mem(rest, k));
            }
            lemma_extract_skip(0, mask, t + 1, next);
        }
        n += 1;
    }
    n
}

/// The attack sets of knight and king for each square, and for rook and
/// bishop the blocker mask of each square and the attack set for each subset
/// of the mask.
pub struct AttackTables {
    pub knight_moves: Vec<u64>,
    pub king_moves: Vec<u64>,
    pub rook_blocker_masks: Vec<u64>,
    pub bishop_blocker_masks: Vec<u64>,
    /// For each square, the rook's attacks for each subset of its blocker
    /// mask, at the index that the subset is extracted to.
    pub rook_magics: Vec<Vec<u64>>,
    pub bishop_magics: Vec<Vec<u64>>,
}

/// Each entry of a rook's row holds the attacks over the subset of the mask
/// that is deposited from its index.
pub open spec fn rook_row_wf(row: Seq<u64>, s: int) -> bool {
    forall|i: int|
        0 <= i < row.len() && i <= u64::MAX ==> #[trigger] row[i] == rook_attacks(
            s,
            deposit(i as u64, rook_mask(s)),
        )
}

/// Each entry of a bishop's row holds the attacks over the subset of the
/// mask that is deposited from its index.
pub open spec fn bishop_row_wf(row: Seq<u64>, s: int) -> bool {
    forall|i: int|
        0 <= i < row.len() && i <= u64::MAX ==> #[trigger] row[i] == bishop_attacks(
            s,
            deposit(i as u64, bishop_mask(s)),
        )
}

fn gen_rook_row(square: usize) -> (row: Vec<u64>)
    requires
        square < 64,
    ensures
        rook_row_wf(row@, square as int),
        row@.len() == row_size(count_below(rook_mask(square as int), 64)),
{
    let mask = gen_rook_blocker_mask(square);
    let n = count_bits(mask);
    let mut row: Vec<u64> = Vec::new();
    if n > 12 {
        return row;
    }
    proof {
        lemma_two_to(n as int);
    }
    let len: usize = (1u64 << (n as u64)) as usize;
    let mut index: usize = 0;
    while index < len
        invariant
            square < 64,
            index <= len,
            mask == rook_mask(square as int),
            row@.len() == index,
            rook_row_wf(row@, square as int),
        decreases len - index,
    {
        row.push(scan_rook(square, deposit_bits(index as u64, mask)));
        index += 1;
    }
    row
}

fn gen_bishop_row(square: usize) -> (row: Vec<u64>)
    requires
        square < 64,
    ensures
        bishop_row_wf(row@, square as int),
        row@.len() == row_size(count_below(bishop_mask(square as int), 64)),
{
    let mask = gen_bishop_blocker_mask(square);
    let n = count_bits(mask);
    let mut row: Vec<u64> = Vec::new();
    if n > 12 {
        return row;
    }
    proof {
        lemma_two_to(n as int);
    }
    let len: usize = (1u64 << (n as u64)) as usize;
    let mut index: usize = 0;
    while index < len
        invariant
            square < 64,
            index <= len,
            mask == bishop_mask(square as int),
            row@.len() == index,
            bishop_row_wf(row@, square as int),
        decreases len - index,
    {
        row.push(scan_bishop(square, deposit_bits(index as u64, mask)));
        index += 1;
    }
    row
}

impl AttackTables {
    /// Every table has an entry for each square, and every entry is the
    /// attack set or mask that it stands for.
    pub open spec fn wf(&self) -> bool {
        &&& self.knight_moves@.len() == 64
        &&& self.king_moves@.len() == 64
        &&& self.rook_blocker_masks@.len() == 64
        &&& self.bishop_blocker_masks@.len() == 64
        &&& self.rook_magics@.len() == 64
        &&& self.bishop_magics@.len() == 64
        &&& forall|s: int| 0 <= s < 64 ==> #[trigger] self.knight_moves@[s] == knight_attacks(s)
        &&& forall|s: int| 0 <= s < 64 ==> #[trigger] self.king_moves@[s] == king_attacks(s)
        &&& forall|s: int| 0 <= s < 64 ==> #[trigger] self.rook_blocker_masks@[s] == rook_mask(s)
        &&& forall|s: int| 0 <= s < 64 ==> #[trigger] self.bishop_blocker_masks@[s] == bishop_mask(s)
        &&& forall|s: int| 0 <= s < 64 ==> rook_row_wf(#[trigger] self.rook_magics@[s]@, s)
        &&& forall|s: int| 0 <= s < 64 ==> bishop_row_wf(#[trigger] self.bishop_magics@[s]@, s)
        &&& forall|s: int|
            0 <= s < 64 ==> (#[trigger] self.rook_magics@[s])@.len() == row_size(
                count_below(rook_mask(s), 64),
            )
        &&& forall|s: int|
            0 <= s < 64 ==> (#[trigger] self.bishop_magics@[s])@.len() == row_size(
                count_below(bishop_mask(s), 64),
            )
    }

    /// Builds the step tables, the blocker masks and the ray tables.
    pub fn new() -> (t: AttackTables)
        ensures
            t.wf(),
    {
        let mut t = AttackTables {
            knight_moves: Vec::new(),
            king_moves: Vec::new(),
            rook_blocker_masks: Vec::new(),
            bishop_blocker_masks: Vec::new(),
            rook_magics: Vec::new(),
            bishop_magics: Vec::new(),
        };
        let mut square: usize = 0;
        while square < 64
            invariant
                square <= 64,
                t.knight_moves@.len() == square,
                t.king_moves@.len() == square,
                t.rook_blocker_masks@.len() == square,
                t.bishop_blocker_masks@.len() == square,
                t.rook_magics@.len() == square,
                t.bishop_magics@.len() == square,
                forall|s: int| 0 <= s < square ==> #[trigger] t.knight_moves@[s] == knight_attacks(s),
                forall|s: int| 0 <= s < square ==> #[trigger] t.king_moves@[s] == king_attacks(s),
                forall|s: int| 0 <= s < square ==> #[trigger] t.rook_blocker_masks@[s] == rook_mask(s),
                forall|s: int|
                    0 <= s < square ==> #[trigger] t.bishop_blocker_masks@[s] == bishop_mask(s),
                forall|s: int| 0 <= s < square ==> rook_row_wf(#[trigger] t.rook_magics@[s]@, s),
                forall|s: int| 0 <= s < square ==> bishop_row_wf(#[trigger] t.bishop_magics@[s]@, s),
                forall|s: int|
                    0 <= s < square ==> (#[trigger] t.rook_magics@[s])@.len() == row_size(
                        count_below(rook_mask(s), 64),
                    ),
                forall|s: int|
                    0 <= s < square ==> (#[trigger] t.bishop_magics@[s])@.len() == row_size(
                        count_below(bishop_mask(s), 64),
                    ),
            decreases 64 - square,
        {
            t.knight_moves.push(gen_knight_moves(square));
            t.king_moves.push(gen_king_moves(square));
            t.rook_blocker_masks.push(gen_rook_blocker_mask(square));
            t.bishop_blocker_masks.push(gen_bishop_blocker_mask(square));
            t.rook_magics.push(gen_rook_row(square));
            t.bishop_magics.push(gen_bishop_row(square));
            square += 1;
        }
        t
    }

    /// The squares a knight on `square` attacks.
    pub fn knight(&self, square: usize) -> (r: u64)
        requires
            self.wf(),
            square < 64,
        ensures
            r == knight_attacks(square as int),
    {
        self.knight_moves[square]
    }

    /// The squares a king on `square` attacks.
    pub fn king(&self, square: usize) -> (r: u64)
        requires
            self.wf(),
            square < 64,
        ensures
            r == king_attacks(square as int),
    {
        self.king_moves[square]
    }

    /// The place of the blockers `blockers` in the table row of a rook on
    /// `square`: the blockers under the rook's mask, extracted.
    pub fn rook_index(&self, square: usize, blockers: u64) -> (index: u64)
        requires
            self.wf(),
            square < 64,
        ensures
            index == extract(blockers, rook_mask(square as int)),
    {
        proof {
            lemma_masks_not_full(square as int);
        }
        extract_bits(blockers, self.rook_blocker_masks[square])
    }

    /// The place of the blockers `blockers` in the table row of a bishop on
    /// `square`.
    pub fn bishop_index(&self, square: usize, blockers: u64) -> (index: u64)
        requires
            self.wf(),
            square < 64,
        ensures
            index == extract(blockers, bishop_mask(square as int)),
    {
        proof {
            lemma_masks_not_full(square as int);
        }
        extract_bits(blockers, self.bishop_blocker_masks[square])
    }

    /// The squares a rook on `square` attacks over the occupied squares
    /// `blockers`: a table lookup at the extracted blockers, or a ray scan
    /// where the table has no such entry.
    pub fn rook(&self, square: usize, blockers: u64) -> (r: u64)
        requires
            self.wf(),
            square < 64,
        ensures
            r == rook_attacks(square as int, blockers),
    {
        let mask = self.rook_blocker_masks[square];
        let index = self.rook_index(square, blockers);
        let row = &self.rook_magics[square];
        proof {
            lemma_deposit_extract(blockers, mask);
            lemma_rook_masked(square as int, blockers);
        }
        if index < row.len() as u64 {
            assert(row@[index as int] == rook_attacks(
                square as int,
                deposit(index as int as u64, rook_mask(square as int)),
            ));
            row[index as usize]
        } else {
            scan_rook(square, blockers)
        }
    }

    /// The squares a bishop on `square` attacks over the occupied squares
    /// `blockers`.
    pub fn bishop(&self, square: usize, blockers: u64) -> (r: u64)
        requires
            self.wf(),
            square < 64,
        ensures
            r == bishop_attacks(square as int, blockers),
    {
        let mask = self.bishop_blocker_masks[square];
        let index = self.bishop_index(square, blockers);
        let row = &self.bishop_magics[square];
        proof {
            lemma_deposit_extract(blockers, mask);
            lemma_bishop_masked(square as int, blockers);
        }
        if index < row.len() as u64 {
            assert(row@[index as int] == bishop_attacks(
                square as int,
                deposit(index as int as u64, bishop_mask(square as int)),
            ));
            row[index as usize]
        } else {
            scan_bishop(square, blockers)
        }
    }

    /// The squares a queen on `square` attacks over the occupied squares
    /// `blockers`.
    pub fn queen(&self, square: usize, blockers: u64) -> (r: u64)
        requires
            self.wf(),
            square < 64,
        ensures
            r == queen_attacks(square as int, blockers),
    {
        self.rook(square, blockers) | self.bishop(square, blockers)
    }
}

} // verus!


