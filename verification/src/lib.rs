//! A move-generation core for the board game Breakthrough on a configurable
//! rectangular grid.
//!
//! A [`State`] packs each side's pieces into one 64-bit word, a bit per cell,
//! indexed `row * width + col` with row 0 the mover's own back rank.
//! [`State::children`] enumerates every legal single-piece move of the side
//! to move, each result already re-expressed from the other side's point of
//! view, and [`State::is_lost`] reports whether a hostile piece has reached
//! the mover's back rank.

use vstd::prelude::*;
use vstd::arithmetic::div_mod::{
    lemma_fundamental_div_mod, lemma_fundamental_div_mod_converse, lemma_mod_bound,
};

mod bitops;

use crate::bitops::{
    bit_at, lemma_bit_and, lemma_bit_diff, lemma_bit_nonzero, lemma_bit_or, lemma_bit_shl,
    lemma_bit_shr, lemma_bit_single, lemma_low_mask, lemma_nonzero_bit, lemma_rev_low_bits,
    lemma_bit_ext, low_mask, rev_low, reverse_low, with_bit, without_bit,
};

verus! {

/// An acceptable geometry: at least one column, at least four rows (two full
/// starting rows a side and room to play), and no more cells than a 64-bit
/// word can hold.
pub open spec fn dims_ok(width: int, height: int) -> bool {
    1 <= width && 4 <= height && width * height <= 64
}

/// A Breakthrough position, seen from the side to move: `me` holds the
/// mover's pieces, `them` the opponent's, one bit per cell, indexed
/// `row * width + col` with row 0 the mover's back rank and rows ascending
/// toward the opponent.
#[derive(Debug, Clone, Copy, PartialEq, Eq, Structural)]
pub struct State {
    pub width: u32,
    pub height: u32,
    pub me: u64,
    pub them: u64,
}

proof fn lemma_width_bound(width: int, height: int)
    requires
        dims_ok(width, height),
    ensures
        width <= 16,
        4 * width <= width * height,
{
    assert(4 * width <= width * height) by (nonlinear_arith)
        requires
            4 <= height,
            1 <= width,
    ;
}

/// Coordinates of a cell and of its image under the half-turn rotation that
/// flips the board between the two players' frames.
proof fn lemma_mirror(w: int, h: int, x: int)
    requires
        1 <= w,
        1 <= h,
        0 <= x < w * h,
    ensures
        0 <= x % w < w,
        0 <= x / w < h,
        x == w * (x / w) + x % w,
        (w * h - 1 - x) / w == h - 1 - x / w,
        (w * h - 1 - x) % w == w - 1 - x % w,
{
    lemma_fundamental_div_mod(x, w);
    lemma_mod_bound(x, w);
    let q = x / w;
    let r = x % w;
    assert(0 <= q && q < h) by (nonlinear_arith)
        requires
            x == w * q + r,
            0 <= r < w,
            0 <= x < w * h,
            w >= 1,
    ;
    assert(w * h - 1 - x == (h - 1 - q) * w + (w - 1 - r)) by (nonlinear_arith)
        requires
            x == w * q + r,
    ;
    lemma_fundamental_div_mod_converse(w * h - 1 - x, w, h - 1 - q, w - 1 - r);
}

/// Bit-level description of both sides of `child_of(s, d)`: reading target
/// bit `j` of the rotated words amounts to reading source cell
/// `area - 1 - j` after the move.
proof fn lemma_child_bits(st: State, s: int, d: int)
    requires
        st.wf(),
        st.mv_ok(s, d),
    ensures
        forall|j: int|
            bit_at(st.child_of(s, d).me, j) == (0 <= j < st.area() && bit_at(
                st.them,
                st.area() - 1 - j,
            ) && st.area() - 1 - j != d),
        forall|j: int|
            bit_at(st.child_of(s, d).them, j) == (0 <= j < st.area() && (st.area() - 1 - j == d
                || (bit_at(st.me, st.area() - 1 - j) && st.area() - 1 - j != s))),
{
    let a = st.area();
    lemma_width_bound(st.width as int, st.height as int);
    st.lemma_move_shape(s, d);
    let du = d as u64;
    let su = s as u64;
    let gone = without_bit(st.them, d);
    lemma_rev_low_bits(gone, a);
    assert forall|j: int|
        bit_at(st.child_of(s, d).me, j) == (0 <= j < a && bit_at(st.them, a - 1 - j) && a - 1 - j
            != d) by {
        if 0 <= j < a {
            lemma_bit_diff(st.them, 1u64 << du, a - 1 - j);
            lemma_bit_single(du, a - 1 - j);
        }
    }
    let moved = with_bit(without_bit(st.me, s), d);
    lemma_rev_low_bits(moved, a);
    assert forall|j: int|
        bit_at(st.child_of(s, d).them, j) == (0 <= j < a && (a - 1 - j == d || (bit_at(
            st.me,
            a - 1 - j,
        ) && a - 1 - j != s))) by {
        if 0 <= j < a {
            let p = a - 1 - j;
            lemma_bit_or(without_bit(st.me, s), 1u64 << du, p);
            lemma_bit_single(du, p);
            lemma_bit_diff(st.me, 1u64 << su, p);
            lemma_bit_single(su, p);
        }
    }
}

/// A legal move leads from a well-formed position to a well-formed one.
proof fn lemma_child_wf(st: State, s: int, d: int)
    requires
        st.wf(),
        st.mv_ok(s, d),
    ensures
        st.child_of(s, d).wf(),
{
    lemma_child_bits(st, s, d);
    let c = st.child_of(s, d);
    assert forall|j: int| bit_at(c.me, j) implies !bit_at(c.them, j) by {
        if bit_at(c.them, j) {
            let p = st.area() - 1 - j;
            if p == d {
                assert(!bit_at(c.me, j));
            } else {
                assert(bit_at(st.me, p) && bit_at(st.them, p));
            }
        }
    }
}

/// Distinct legal moves lead to distinct children: the moved-from and
/// moved-to cells can be read back out of the child.
proof fn lemma_child_inj(st: State, s1: int, d1: int, s2: int, d2: int)
    requires
        st.wf(),
        st.mv_ok(s1, d1),
        st.mv_ok(s2, d2),
        !(s1 == s2 && d1 == d2),
    ensures
        st.child_of(s1, d1) != st.child_of(s2, d2),
{
    let a = st.area();
    st.lemma_move_shape(s1, d1);
    st.lemma_move_shape(s2, d2);
    lemma_child_bits(st, s1, d1);
    lemma_child_bits(st, s2, d2);
    if s1 != s2 {
        let j = a - 1 - s2;
        assert(bit_at(st.child_of(s1, d1).them, j));
        assert(!bit_at(st.child_of(s2, d2).them, j));
    } else {
        let j = a - 1 - d2;
        assert(bit_at(st.child_of(s2, d2).them, j));
        assert(!bit_at(st.child_of(s1, d1).them, j));
    }
}

/// Correctness of one source cell's candidate mask, computed in the rotated
/// frame where the advancing side moves toward bit 0: `spu` is the rotated
/// source index, `adv` and `other` the rotated words of the advancing and
/// defending side, `rm` the mask of the row directly ahead, and `mask` the
/// final candidate set. Its set bits are exactly the rotated images of the
/// legal destinations.
proof fn lemma_mask_bits(st: State, spu: u64, kk: u64, adv: u64, other: u64, rm: u64, mask: u64)
    requires
        st.wf(),
        forall|j: int|
            bit_at(adv, j) == (0 <= j < st.area() && bit_at(st.me, st.area() - 1 - j)),
        forall|j: int|
            bit_at(other, j) == (0 <= j < st.area() && bit_at(st.them, st.area() - 1 - j)),
        st.width <= spu < st.area(),
        bit_at(st.me, st.area() - 1 - spu),
        kk == ((spu as int) / (st.width as int) - 1) * (st.width as int),
        rm == low_mask(st.width as u64) << kk,
        mask == ((((1u64 << spu) >> (st.width as u64)) & !other) | ((1u64 << spu) >> ((st.width
            - 1) as u64)) | ((1u64 << spu) >> ((st.width + 1) as u64))) & !adv & rm,
    ensures
        forall|dp: int|
            bit_at(mask, dp) == (0 <= dp < st.area() && st.mv_ok(
                st.area() - 1 - spu,
                st.area() - 1 - dp,
            )),
{
    let w = st.width as int;
    let h = st.height as int;
    let wu = st.width as u64;
    let a = st.area();
    lemma_width_bound(w, h);
    let sp = spu as int;
    let s = a - 1 - sp;
    lemma_mirror(w, h, sp);
    let q = sp / w;
    let r = sp % w;
    assert(1 <= q) by (nonlinear_arith)
        requires
            sp == w * q + r,
            0 <= r < w,
            sp >= w,
            1 <= w,
    ;
    assert(kk == w * q - w && w * q + w <= a) by (nonlinear_arith)
        requires
            kk == (q - 1) * w,
            q < h,
            a == w * h,
            1 <= w,
    ;
    assert forall|dp: int| bit_at(rm, dp) == (kk <= dp < kk + w) by {
        if 0 <= dp < 64 {
            lemma_bit_shl(low_mask(wu), kk, dp);
            lemma_low_mask(wu, dp - kk);
        }
    }
    let sbit = 1u64 << spu;
    let k2 = (st.width - 1) as u64;
    let k3 = (st.width + 1) as u64;
    assert forall|dp: int| 0 <= dp implies (bit_at(sbit >> wu, dp) == (dp == sp - w)) && (bit_at(
        sbit >> k2,
        dp,
    ) == (dp == sp - (w - 1))) && (bit_at(sbit >> k3, dp) == (dp == sp - (w + 1))) by {
        lemma_bit_shr(sbit, wu, dp);
        lemma_bit_shr(sbit, k2, dp);
        lemma_bit_shr(sbit, k3, dp);
        lemma_bit_single(spu, dp + w);
        lemma_bit_single(spu, dp + (w - 1));
        lemma_bit_single(spu, dp + (w + 1));
    }
    assert forall|dp: int| bit_at(mask, dp) == (0 <= dp < a && st.mv_ok(s, a - 1 - dp)) by {
        if 0 <= dp < 64 {
            let x1 = (sbit >> wu) & !other;
            let x2 = sbit >> k2;
            let x3 = sbit >> k3;
            lemma_bit_diff(sbit >> wu, other, dp);
            lemma_bit_or(x1, x2, dp);
            lemma_bit_or(x1 | x2, x3, dp);
            lemma_bit_diff(x1 | x2 | x3, adv, dp);
            lemma_bit_and((x1 | x2 | x3) & !adv, rm, dp);
            assert(s % w == w - 1 - r);
            assert(dp == sp - w ==> dp - kk == r);
            assert(dp == sp - (w - 1) ==> dp - kk == r + 1);
            assert(dp == sp - (w + 1) ==> dp - kk == r - 1);
        } else {
            assert(!bit_at(mask, dp));
            assert(!(0 <= dp < a));
        }
    }
}

impl State {
    /// Number of cells on the board.
    pub open spec fn area(self) -> int {
        self.width * self.height
    }

    /// Every set bit of `side` lies on the board.
    pub open spec fn on_board(self, side: u64) -> bool {
        forall|i: int| bit_at(side, i) ==> i < self.area()
    }

    /// Structural validity: a sane geometry, both bit sets confined to the
    /// board, and no cell held by both sides at once.
    pub open spec fn wf(self) -> bool {
        &&& dims_ok(self.width as int, self.height as int)
        &&& self.on_board(self.me)
        &&& self.on_board(self.them)
        &&& forall|i: int| bit_at(self.me, i) ==> !bit_at(self.them, i)
    }

    /// The side to move has already lost: a hostile piece sits on its back
    /// rank, row 0 of the mover's own frame.
    pub open spec fn lost(self) -> bool {
        exists|i: int| 0 <= i < self.width && bit_at(self.them, i)
    }

    /// The row of cell `i`, counted from the mover's back rank.
    pub open spec fn row_of(self, i: int) -> int {
        i / (self.width as int)
    }

    /// The column of cell `i`.
    pub open spec fn col_of(self, i: int) -> int {
        i % (self.width as int)
    }

    /// One legal single-piece move for the side to move: from cell `s` one
    /// row forward to cell `d`. Straight ahead only onto an empty cell;
    /// diagonally forward onto any cell not held by a friendly piece
    /// (landing on a defender is a capture). The row ahead must exist, and
    /// diagonals may not wrap around the board's edge.
    pub open spec fn mv_ok(self, s: int, d: int) -> bool {
        &&& bit_at(self.me, s)
        &&& s < self.area() - self.width
        &&& !bit_at(self.me, d)
        &&& {
            ||| d == s + self.width && !bit_at(self.them, d)
            ||| d == s + self.width - 1 && self.col_of(s) != 0
            ||| d == s + self.width + 1 && self.col_of(s) != self.width - 1
        }
    }

    /// The position after the move `(s, d)`, already re-expressed from the
    /// other side's point of view: the defenders (minus any captured piece)
    /// become the new `me`, the mover's pieces (with one carried from `s` to
    /// `d`) become the new `them`, and both words are rotated half a turn so
    /// that the new mover's back rank is row 0 again.
    pub open spec fn child_of(self, s: int, d: int) -> State {
        State {
            width: self.width,
            height: self.height,
            me: rev_low(without_bit(self.them, d), self.area()),
            them: rev_low(with_bit(without_bit(self.me, s), d), self.area()),
        }
    }

    /// `c` results from some legal move in this position.
    pub open spec fn is_child(self, c: State) -> bool {
        exists|s: int, d: int| self.mv_ok(s, d) && c == self.child_of(s, d)
    }

    /// What `children` returns: the set of positions reachable by one legal
    /// move, each exactly once, in no promised order.
    pub open spec fn children_post(self, cs: Seq<State>) -> bool {
        &&& cs.no_duplicates()
        &&& forall|k: int| 0 <= k < cs.len() ==> #[trigger] self.is_child(cs[k])
        &&& forall|s: int, d: int|
            self.mv_ok(s, d) ==> cs.contains(self.child_of(s, d))
    }

    /// Every legal move stays on the board and never wraps around an edge:
    /// the destination lies exactly one row ahead of the source, in the same
    /// column or an adjacent one. In particular a piece on the rightmost
    /// column can never land on the leftmost column of the next row, nor the
    /// other way round.
    pub proof fn lemma_move_shape(self, s: int, d: int)
        requires
            self.wf(),
            self.mv_ok(s, d),
        ensures
            0 <= s < self.area() - self.width,
            0 <= d < self.area(),
            self.row_of(d) == self.row_of(s) + 1,
            self.col_of(s) - 1 <= self.col_of(d) <= self.col_of(s) + 1,
    {
        let w = self.width as int;
        let h = self.height as int;
        lemma_mirror(w, h, s);
        let q = s / w;
        let r = s % w;
        assert(q < h - 1) by (nonlinear_arith)
            requires
                s == w * q + r,
                0 <= r < w,
                s < w * h - w,
                w >= 1,
        ;
        if d == s + w && !bit_at(self.them, d) {
            assert(d == (q + 1) * w + r) by (nonlinear_arith)
                requires
                    s == w * q + r,
                    d == s + w,
            ;
            lemma_fundamental_div_mod_converse(d, w, q + 1, r);
        } else if d == s + w - 1 && r != 0 {
            assert(d == (q + 1) * w + (r - 1)) by (nonlinear_arith)
                requires
                    s == w * q + r,
                    d == s + w - 1,
            ;
            lemma_fundamental_div_mod_converse(d, w, q + 1, r - 1);
        } else {
            assert(d == (q + 1) * w + (r + 1)) by (nonlinear_arith)
                requires
                    s == w * q + r,
                    d == s + w + 1,
            ;
            lemma_fundamental_div_mod_converse(d, w, q + 1, r + 1);
        }
        assert(d == w * (q + 1) + d % w) by {
            lemma_fundamental_div_mod(d, w);
        }
        assert(d < w * h) by (nonlinear_arith)
            requires
                d == w * (q + 1) + d % w,
                d % w < w,
                q + 1 < h,
                w >= 1,
        ;
    }

    /// The canonical starting position for the given geometry: the mover's
    /// pieces fill rows 0 and 1, the opponent's pieces mirror them on the two
    /// topmost rows. Geometries that break [`dims_ok`] are rejected before
    /// any position exists.
    pub fn new(width: u32, height: u32) -> (r: Option<State>)
        ensures
            r is Some <==> dims_ok(width as int, height as int),
            r matches Some(st) ==> {
                &&& st.width == width
                &&& st.height == height
                &&& forall|i: int| bit_at(st.me, i) == (0 <= i < 2 * width)
                &&& forall|i: int|
                    bit_at(st.them, i) == (st.area() - 2 * width <= i < st.area())
                &&& st.wf()
            },
    {
        if width < 1 || height < 4 {
            return None;
        }
        proof {
            assert((width as u64) * (height as u64) < 0xFFFF_FFFF_FFFF_FFFF) by (nonlinear_arith)
                requires
                    (width as u64) <= 0xFFFF_FFFF,
                    (height as u64) <= 0xFFFF_FFFF,
            ;
        }
        let wide: u64 = (width as u64) * (height as u64);
        if wide > 64 {
            return None;
        }
        let area: u32 = wide as u32;
        proof {
            assert(area == width * height);
            lemma_width_bound(width as int, height as int);
            assert(1u64 << (width as u64) >= 1u64) by (bit_vector)
                requires
                    (width as u64) < 64,
            ;
        }
        let row_mask: u64 = (1u64 << (width as u64)) - 1;
        let me: u64 = row_mask | (row_mask << (width as u64));
        let them: u64 = me << ((area - 2 * width) as u64);
        let st = State { width, height, me, them };
        proof {
            let w = width as u64;
            let k = (area - 2 * width) as u64;
            assert forall|i: int| bit_at(me, i) == (0 <= i < 2 * width) by {
                if 0 <= i < 64 {
                    let iu = i as u64;
                    assert(((me >> iu) & 1u64 == 1u64) == (iu < 2 * w)) by (bit_vector)
                        requires
                            iu < 64,
                            1 <= w <= 16,
                            me == low_mask(w) | (low_mask(w) << w),
                    ;
                } else {
                    assert(!(0 <= i < 2 * width));
                }
            }
            assert forall|i: int|
                bit_at(them, i) == (st.area() - 2 * width <= i < st.area()) by {
                if 0 <= i < 64 {
                    let iu = i as u64;
                    assert(((them >> iu) & 1u64 == 1u64) == (k <= iu && iu < k + 2 * w))
                        by (bit_vector)
                        requires
                            iu < 64,
                            1 <= w <= 16,
                            k + 2 * w <= 64,
                            me == low_mask(w) | (low_mask(w) << w),
                            them == me << k,
                    ;
                } else {
                    assert(!(st.area() - 2 * width <= i < st.area()));
                }
            }
        }
        Some(st)
    }

    /// Every position reachable from this one by a single legal move of the
    /// side to move, each exactly once and already expressed from the next
    /// mover's point of view. No order is promised. A position whose mover
    /// has no legal move yields an empty vector.
    #[verifier::loop_isolation(false)]
    #[verifier::rlimit(100)]
    pub fn children(self) -> (r: Vec<State>)
        requires
            self.wf(),
        ensures
            self.children_post(r@),
            forall|k: int| 0 <= k < r@.len() ==> (#[trigger] r@[k]).wf(),
    {
        let w: u32 = self.width;
        let area: u32 = self.width * self.height;
        proof {
            lemma_width_bound(self.width as int, self.height as int);
            lemma_rev_low_bits(self.me, area as int);
            lemma_rev_low_bits(self.them, area as int);
            let wu = w as u64;
            assert(1u64 << wu >= 1u64) by (bit_vector)
                requires
                    wu < 64,
            ;
        }
        let adv: u64 = reverse_low(self.me, area);
        let other: u64 = reverse_low(self.them, area);
        let row_mask: u64 = (1u64 << (w as u64)) - 1;
        let mut out: Vec<State> = Vec::new();
        let ghost mut srcs: Seq<int> = Seq::empty();
        let ghost mut dsts: Seq<int> = Seq::empty();
        let mut sp: u32 = 0;
        while sp < area
            invariant
                sp <= area,
                srcs.len() == out@.len(),
                dsts.len() == out@.len(),
                forall|k: int|
                    0 <= k < out@.len() ==> #[trigger] self.mv_ok(srcs[k], dsts[k]),
                forall|k: int|
                    #![trigger out@[k]]
                    0 <= k < out@.len() ==> out@[k] == self.child_of(srcs[k], dsts[k]),
                forall|k: int| 0 <= k < out@.len() ==> self.area() - 1 - #[trigger] srcs[k] < sp,
                forall|s: int, d: int|
                    self.mv_ok(s, d) && self.area() - 1 - s < sp ==> out@.contains(
                        self.child_of(s, d),
                    ),
                out@.no_duplicates(),
            decreases area - sp,
        {
            if sp >= w && (adv >> (sp as u64)) & 1u64 == 1u64 {
                proof {
                    let wi = w as int;
                    let hi = self.height as int;
                    let spi = sp as int;
                    lemma_mirror(wi, hi, spi);
                    let qi = spi / wi;
                    let ri = spi % wi;
                    assert(1 <= qi) by (nonlinear_arith)
                        requires
                            spi == wi * qi + ri,
                            0 <= ri < wi,
                            spi >= wi,
                            1 <= wi,
                    ;
                    assert((qi - 1) * wi == wi * qi - wi && wi * qi + wi <= self.area())
                        by (nonlinear_arith)
                        requires
                            qi < hi,
                            self.area() == wi * hi,
                            1 <= wi,
                    ;
                }
                let q: u32 = sp / w;
                let kk: u32 = (q - 1) * w;
                let rm: u64 = row_mask << (kk as u64);
                let sbit: u64 = 1u64 << (sp as u64);
                let mask: u64 = (((sbit >> (w as u64)) & !other) | (sbit >> ((w - 1) as u64)) | (
                sbit >> ((w + 1) as u64))) & !adv & rm;
                proof {
                    assert(bit_at(adv, sp as int));
                    lemma_mask_bits(self, sp as u64, kk as u64, adv, other, rm, mask);
                    assert forall|d: int| #![trigger self.mv_ok(self.area() - 1 - sp, d)]
                        self.mv_ok(self.area() - 1 - sp, d) implies 0 <= d
                        < self.area() by {
                        self.lemma_move_shape(self.area() - 1 - sp, d);
                    }
                }
                let keep: u64 = adv & !sbit;
                let mut dp: u32 = 0;
                while dp < area
                    invariant
                        dp <= area,
                        srcs.len() == out@.len(),
                        dsts.len() == out@.len(),
                        forall|k: int|
                            0 <= k < out@.len() ==> #[trigger] self.mv_ok(srcs[k], dsts[k]),
                        forall|k: int|
                            #![trigger out@[k]]
                            0 <= k < out@.len() ==> out@[k] == self.child_of(srcs[k], dsts[k]),
                        forall|k: int|
                            0 <= k < out@.len() ==> self.area() - 1 - #[trigger] srcs[k] < sp || (
                            srcs[k] == self.area() - 1 - sp && self.area() - 1 - dsts[k] < dp),
                        forall|s: int, d: int|
                            self.mv_ok(s, d) && (self.area() - 1 - s < sp || (s == self.area() - 1
                                - sp && self.area() - 1 - d < dp)) ==> out@.contains(
                                self.child_of(s, d),
                            ),
                        out@.no_duplicates(),
                    decreases area - dp,
                {
                    let ghost a = self.area();
                    let ghost s0 = a - 1 - sp;
                    let ghost d0 = a - 1 - dp;
                    let ghost pre = out@;
                    if (mask >> (dp as u64)) & 1u64 == 1u64 {
                        let dbit: u64 = 1u64 << (dp as u64);
                        let child = State {
                            width: self.width,
                            height: self.height,
                            me: other & !dbit,
                            them: keep | dbit,
                        };
                        proof {
                            assert(bit_at(mask, dp as int));
                            assert(self.mv_ok(s0, d0));
                            lemma_child_bits(self, s0, d0);
                            lemma_child_wf(self, s0, d0);
                            let c = self.child_of(s0, d0);
                            assert forall|j: int| bit_at(child.me, j) == bit_at(c.me, j) by {
                                lemma_bit_diff(other, dbit, j);
                                lemma_bit_single(dp as u64, j);
                            }
                            lemma_bit_ext(child.me, c.me);
                            assert forall|j: int| bit_at(child.them, j) == bit_at(c.them, j) by {
                                lemma_bit_or(keep, dbit, j);
                                lemma_bit_diff(adv, sbit, j);
                                lemma_bit_single(dp as u64, j);
                                lemma_bit_single(sp as u64, j);
                            }
                            lemma_bit_ext(child.them, c.them);
                            assert(child == c);
                            assert forall|k: int| 0 <= k < pre.len() implies pre[k] != c by {
                                lemma_child_inj(self, srcs[k], dsts[k], s0, d0);
                            }
                        }
                        out.push(child);
                        proof {
                            srcs = srcs.push(s0);
                            dsts = dsts.push(d0);
                            assert(out@ == pre.push(self.child_of(s0, d0)));
                            assert forall|i: int, j: int|
                                0 <= i < out@.len() && 0 <= j < out@.len() && i != j implies out@[i]
                                != out@[j] by {
                                if i < pre.len() && j < pre.len() {
                                    assert(out@[i] == pre[i] && out@[j] == pre[j]);
                                } else if j >= pre.len() {
                                    assert(out@[i] == pre[i] && out@[j] == self.child_of(s0, d0));
                                } else {
                                    assert(out@[j] == pre[j] && out@[i] == self.child_of(s0, d0));
                                }
                            }
                            assert(out@.no_duplicates());
                        }
                    }
                    proof {
                        assert(bit_at(mask, dp as int) == ((mask >> (dp as u64)) & 1u64 == 1u64));
                        assert forall|s: int, d: int|
                            self.mv_ok(s, d) && (a - 1 - s < sp || (s == s0 && a - 1 - d < dp + 1))
                                implies out@.contains(self.child_of(s, d)) by {
                            if a - 1 - s < sp || (s == s0 && a - 1 - d < dp) {
                                assert(pre.contains(self.child_of(s, d)));
                                let i = choose|i: int|
                                    0 <= i < pre.len() && pre[i] == self.child_of(s, d);
                                assert(out@[i] == self.child_of(s, d));
                            } else {
                                assert(s == s0 && a - 1 - d == dp);
                                assert(bit_at(mask, dp as int));
                                assert(out@[pre.len() as int] == self.child_of(s0, d0));
                            }
                        }
                    }
                    dp = dp + 1;
                }
            } else {
                proof {
                    assert(bit_at(adv, sp as int) == ((adv >> (sp as u64)) & 1u64 == 1u64));
                    assert forall|s: int, d: int|
                        self.mv_ok(s, d) && self.area() - 1 - s < sp + 1 implies out@.contains(
                            self.child_of(s, d),
                        ) by {
                        if self.area() - 1 - s >= sp {
                            assert(s == self.area() - 1 - sp);
                            assert(!bit_at(self.me, s) || s >= self.area() - self.width);
                            assert(false);
                        }
                    }
                }
            }
            sp = sp + 1;
        }
        proof {
            assert forall|k: int| 0 <= k < out@.len() implies #[trigger] self.is_child(
                out@[k],
            ) by {
                assert(self.mv_ok(srcs[k], dsts[k]) && out@[k] == self.child_of(srcs[k], dsts[k]));
            }
            assert forall|s: int, d: int| self.mv_ok(s, d) implies out@.contains(
                self.child_of(s, d),
            ) by {
                assert(self.area() - 1 - s < sp);
            }
            assert forall|k: int| 0 <= k < out@.len() implies (#[trigger] out@[k]).wf() by {
                lemma_child_wf(self, srcs[k], dsts[k]);
            }
        }
        out
    }

    /// Generation is deterministic up to order: any two sequences that meet
    /// the contract of `children` for the same position hold the same
    /// multiset of positions, so regenerating from an equal copy yields the
    /// same children.
    pub proof fn lemma_children_agree(self, cs1: Seq<State>, cs2: Seq<State>)
        requires
            self.wf(),
            self.children_post(cs1),
            self.children_post(cs2),
        ensures
            cs1.to_multiset() == cs2.to_multiset(),
    {
        broadcast use vstd::seq_lib::group_to_multiset_ensures;

        assert forall|c: State| cs1.contains(c) implies cs2.contains(c) by {
            let k = choose|k: int| 0 <= k < cs1.len() && cs1[k] == c;
            assert(self.is_child(cs1[k]));
            let (s, d) = choose|s: int, d: int|
                self.mv_ok(s, d) && cs1[k] == self.child_of(s, d);
            assert(cs2.contains(self.child_of(s, d)));
        }
        assert forall|c: State| cs2.contains(c) implies cs1.contains(c) by {
            let k = choose|k: int| 0 <= k < cs2.len() && cs2[k] == c;
            assert(self.is_child(cs2[k]));
            let (s, d) = choose|s: int, d: int|
                self.mv_ok(s, d) && cs2[k] == self.child_of(s, d);
            assert(cs1.contains(self.child_of(s, d)));
        }
        cs1.lemma_multiset_has_no_duplicates();
        cs2.lemma_multiset_has_no_duplicates();
        assert forall|c: State| cs1.to_multiset().count(c) == cs2.to_multiset().count(c) by {
            if cs1.contains(c) {
                assert(cs1.to_multiset().count(c) == 1 && cs2.to_multiset().count(c) == 1);
            } else {
                assert(cs1.to_multiset().count(c) == 0 && cs2.to_multiset().count(c) == 0);
            }
        }
        assert(cs1.to_multiset() =~= cs2.to_multiset());
    }

    /// A mover whose pieces all sit on the topmost row has no legal move at
    /// all: the row ahead does not exist, so `children` returns nothing.
    pub proof fn lemma_no_forward_room(self, cs: Seq<State>)
        requires
            self.wf(),
            forall|i: int| bit_at(self.me, i) ==> i >= self.area() - self.width,
            self.children_post(cs),
        ensures
            cs.len() == 0,
    {
        if cs.len() > 0 {
            assert(self.is_child(cs[0]));
            let (s, d) = choose|s: int, d: int| self.mv_ok(s, d) && cs[0] == self.child_of(s, d);
            assert(bit_at(self.me, s));
            assert(false);
        }
    }

    /// `is_lost` always reads the current frame: a child reports a loss
    /// exactly when the side that just moved holds a piece on the child
    /// mover's back rank, that is, when the move just made reached the far
    /// row or another of the old mover's pieces already stood there.
    pub proof fn lemma_lost_in_child(self, s: int, d: int)
        requires
            self.wf(),
            self.mv_ok(s, d),
        ensures
            self.child_of(s, d).lost() == (d >= self.area() - self.width || exists|i: int|
                bit_at(self.me, i) && i != s && i >= self.area() - self.width),
    {
        let a = self.area();
        let w = self.width as int;
        let c = self.child_of(s, d);
        self.lemma_move_shape(s, d);
        lemma_child_bits(self, s, d);
        if c.lost() {
            let j = choose|j: int| 0 <= j < c.width && bit_at(c.them, j);
            let p = a - 1 - j;
            if p == d {
                assert(d >= a - w);
            } else {
                assert(bit_at(self.me, p) && p != s && p >= a - w);
            }
        }
        if d >= a - w {
            let j = a - 1 - d;
            assert(bit_at(c.them, j));
            assert(c.lost());
        }
        if exists|i: int| bit_at(self.me, i) && i != s && i >= a - w {
            let i = choose|i: int| bit_at(self.me, i) && i != s && i >= a - w;
            let j = a - 1 - i;
            assert(bit_at(c.them, j));
            assert(c.lost());
        }
    }

    /// True exactly when the opponent has a piece on the mover's back rank.
    pub fn is_lost(self) -> (r: bool)
        requires
            self.wf(),
        ensures
            r == self.lost(),
    {
        proof {
            lemma_width_bound(self.width as int, self.height as int);
            let w = self.width as u64;
            assert(1u64 << w >= 1u64) by (bit_vector)
                requires
                    w < 64,
            ;
        }
        let row_mask: u64 = (1u64 << (self.width as u64)) - 1;
        let hit: u64 = self.them & row_mask;
        proof {
            let w = self.width as u64;
            assert(row_mask == low_mask(w));
            if hit != 0 {
                lemma_nonzero_bit(hit);
                let i = choose|i: int| bit_at(hit, i);
                lemma_bit_and(self.them, row_mask, i);
                lemma_low_mask(w, i);
                assert(0 <= i < self.width && bit_at(self.them, i));
            } else {
                if self.lost() {
                    let i = choose|i: int| 0 <= i < self.width && bit_at(self.them, i);
                    lemma_bit_and(self.them, row_mask, i);
                    lemma_low_mask(w, i);
                    lemma_bit_nonzero(hit, i);
                }
            }
        }
        hit != 0
    }
}

} // verus!
