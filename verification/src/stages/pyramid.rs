//! Where the children of a coefficient lie in the wavelet pyramid: one level
//! finer in the same band, or, for the approximation band, in the three
//! detail bands of the deepest level.
use vstd::prelude::*;
use vstd::arithmetic::power2::{pow2, lemma2_to64, lemma_pow2_pos, lemma_pow2_unfold};
use crate::stages::zerotree::{
    band_from, children_spec, claims, detail_band, first_claim, kid_index, lemma_grid_index, parents,
};
use crate::Band;

verus! {

/// The side of the block at depth `k`: `w` halved `k` times.
pub open spec fn block_side(w: int, k: nat) -> int
    decreases k,
{
    if k == 0 {
        w
    } else {
        block_side(w, (k - 1) as nat) / 2
    }
}

/// Level and band of a point given as a pair, in a `w` by `h` pyramid.
pub open spec fn point_band(p: (usize, usize), w: usize, h: usize, levels: u8) -> (u8, Band) {
    band_from(p.0 as int, p.1 as int, w as int, h as int, 1, levels as int)
}

proof fn lemma_block_shrinks(w: int, k: nat, j: nat)
    requires
        0 <= w,
        j <= k,
    ensures
        0 <= block_side(w, k) <= block_side(w, j),
    decreases k,
{
    if k > 0 {
        lemma_block_shrinks(w, (k - 1) as nat, if j < k { j } else { (k - 1) as nat });
    }
}

/// With `w == m * 2^levels`, the block at depth `k` has side `m * 2^(levels - k)`.
proof fn lemma_block_value(w: int, m: int, levels: nat, k: nat)
    requires
        0 <= m,
        w == m * pow2(levels),
        k <= levels,
    ensures
        block_side(w, k) == m * pow2((levels - k) as nat),
        k < levels ==> block_side(w, k) % 2 == 0,
    decreases k,
{
    let e = (levels - k) as nat;
    if k > 0 {
        lemma_block_value(w, m, levels, (k - 1) as nat);
        lemma_pow2_unfold(e + 1);
        let p = pow2(e);
        let v = block_side(w, (k - 1) as nat);
        assert(v == m * (2 * p));
        assert(v == 2 * (m * p)) by (nonlinear_arith)
            requires
                v == m * (2 * p),
        ;
    }
    if k < levels {
        lemma_pow2_unfold(e);
        let p = pow2((e - 1) as nat);
        assert(m * pow2(e) == 2 * (m * p)) by (nonlinear_arith)
            requires
                pow2(e) == 2 * p,
        ;
    }
}

/// A point inside the block at depth `k - 1` is, at each level before `k`,
/// inside the block and outside its detail region, so the search for its band
/// reaches level `k` unchanged.
proof fn lemma_band_descends(x: int, y: int, w: int, h: int, levels: int, k: nat)
    requires
        0 <= x,
        0 <= y,
        0 <= w,
        0 <= h,
        1 <= k <= levels + 1,
        x < block_side(w, (k - 1) as nat),
        y < block_side(h, (k - 1) as nat),
    ensures
        band_from(x, y, w, h, 1, levels) == band_from(
            x,
            y,
            block_side(w, (k - 1) as nat),
            block_side(h, (k - 1) as nat),
            k as int,
            levels,
        ),
    decreases k,
{
    if k > 1 {
        let j = (k - 2) as nat;
        lemma_block_shrinks(w, (k - 1) as nat, j);
        lemma_block_shrinks(h, (k - 1) as nat, j);
        lemma_band_descends(x, y, w, h, levels, (k - 1) as nat);
    }
}

/// The band search from level `k` ends in the approximation band only for a
/// point inside the block at depth `levels`.
proof fn lemma_band_ll(x: int, y: int, w: int, h: int, levels: int, k: nat)
    requires
        0 <= x,
        0 <= y,
        0 <= w,
        0 <= h,
        1 <= k <= levels + 1,
        x < block_side(w, (k - 1) as nat),
        y < block_side(h, (k - 1) as nat),
        band_from(x, y, block_side(w, (k - 1) as nat), block_side(h, (k - 1) as nat), k as int, levels).1
            == Band::LL,
    ensures
        x < block_side(w, levels as nat),
        y < block_side(h, levels as nat),
    decreases levels + 1 - k,
{
    if k <= levels {
        lemma_band_ll(x, y, w, h, levels, k + 1);
    }
}

/// The band search from level `k` ends in a detail band at level `l` only for
/// a point inside the block at depth `l - 1` and outside its top-left quadrant,
/// and the band is the one of that quadrant split.
proof fn lemma_band_detail(x: int, y: int, w: int, h: int, levels: int, k: nat)
    requires
        0 <= x,
        0 <= y,
        0 <= w,
        0 <= h,
        1 <= k <= levels + 1,
        levels <= 255,
        x < block_side(w, (k - 1) as nat),
        y < block_side(h, (k - 1) as nat),
        band_from(x, y, block_side(w, (k - 1) as nat), block_side(h, (k - 1) as nat), k as int, levels).1
            != Band::LL,
    ensures
        ({
            let (l, b) = band_from(
                x,
                y,
                block_side(w, (k - 1) as nat),
                block_side(h, (k - 1) as nat),
                k as int,
                levels,
            );
            let cw = block_side(w, (l - 1) as nat);
            let ch = block_side(h, (l - 1) as nat);
            &&& k <= l <= levels
            &&& x < cw && y < ch
            &&& (x >= cw / 2 || y >= ch / 2)
            &&& b == detail_band(x, y, cw / 2, ch / 2)
        }),
    decreases levels + 1 - k,
{
    let cw = block_side(w, (k - 1) as nat);
    let ch = block_side(h, (k - 1) as nat);
    if !(x >= cw / 2 || y >= ch / 2) {
        lemma_band_detail(x, y, w, h, levels, k + 1);
    }
}

/// The children of a coefficient lie inside the pyramid, one level finer in
/// the same band, or, for the approximation band, at the same place in the
/// three detail bands of the deepest level; a coefficient of level 1 has none.
pub proof fn lemma_children_bands(x: usize, y: usize, w: usize, h: usize, levels: u8)
    requires
        1 <= levels,
        (levels as u32) < usize::BITS,
        w as nat % pow2(levels as nat) == 0,
        h as nat % pow2(levels as nat) == 0,
        x < w,
        y < h,
    ensures
        ({
            let (l, b) = band_from(x as int, y as int, w as int, h as int, 1, levels as int);
            let kids = children_spec(x as int, y as int, w, h, levels);
            &&& forall|k: int| 0 <= k < kids.len() ==> #[trigger] kids[k].0 < w && kids[k].1 < h
            &&& b == Band::LL ==> {
                &&& kids.len() == 3
                &&& point_band(kids[0], w, h, levels) == (levels, Band::LH)
                &&& point_band(kids[1], w, h, levels) == (levels, Band::HL)
                &&& point_band(kids[2], w, h, levels) == (levels, Band::HH)
            }
            &&& b != Band::LL && l >= 2 ==> {
                &&& kids.len() == 4
                &&& forall|k: int| 0 <= k < 4 ==> #[trigger] point_band(kids[k], w, h, levels) == ((l - 1) as u8, b)
            }
            &&& b != Band::LL && l < 2 ==> kids.len() == 0
        }),
{
    let li = levels as nat;
    let (wi, hi, xi, yi) = (w as int, h as int, x as int, y as int);
    lemma_pow2_pos(li);
    let mw = wi / (pow2(li) as int);
    let mh = hi / (pow2(li) as int);
    vstd::arithmetic::div_mod::lemma_fundamental_div_mod(wi, pow2(li) as int);
    vstd::arithmetic::div_mod::lemma_fundamental_div_mod(hi, pow2(li) as int);
    assert(wi == mw * pow2(li) && hi == mh * pow2(li) && mw >= 0 && mh >= 0) by (nonlinear_arith)
        requires
            wi == pow2(li) * mw,
            hi == pow2(li) * mh,
            wi >= 0,
            hi >= 0,
            pow2(li) > 0,
    ;
    lemma_block_value(wi, mw, li, li);
    lemma_block_value(hi, mh, li, li);
    lemma2_to64();
    assert((li - li) as nat == 0);
    assert(mw * pow2(0) == mw && mh * pow2(0) == mh) by (nonlinear_arith)
        requires
            pow2(0) == 1,
    ;
    assert(block_side(wi, li) == mw && block_side(hi, li) == mh);
    vstd::bits::lemma_usize_shr_is_div(w, levels as usize);
    vstd::bits::lemma_usize_shr_is_div(h, levels as usize);
    assert((w >> levels) == (w >> (levels as usize))) by (bit_vector);
    assert((h >> levels) == (h >> (levels as usize))) by (bit_vector);
    assert((w >> levels) as int == mw && (h >> levels) as int == mh);
    lemma_band_descends(xi, yi, wi, hi, levels as int, 1);
    let (l, b) = band_from(xi, yi, wi, hi, 1, levels as int);
    let kids = children_spec(xi, yi, w, h, levels);
    let lm = (li - 1) as nat;
    lemma_block_value(wi, mw, li, lm);
    lemma_block_value(hi, mh, li, lm);
    assert(block_side(wi, li) == block_side(wi, lm) / 2);
    assert(block_side(hi, li) == block_side(hi, lm) / 2);
    lemma_block_shrinks(wi, lm, 0);
    lemma_block_shrinks(hi, lm, 0);
    if b == Band::LL {
        lemma_band_ll(xi, yi, wi, hi, levels as int, 1);
        // the three children lie in the block at depth levels - 1, outside
        // its top-left quadrant
        let (cw, ch) = (mw, mh);
        assert(block_side(wi, lm) == 2 * cw && block_side(hi, lm) == 2 * ch);
        assert(kids[0] == ((xi + cw) as usize, yi as usize));
        assert(kids[1] == (xi as usize, (yi + ch) as usize));
        assert(kids[2] == ((xi + cw) as usize, (yi + ch) as usize));
        lemma_band_descends(xi + cw, yi, wi, hi, levels as int, li);
        lemma_band_descends(xi, yi + ch, wi, hi, levels as int, li);
        lemma_band_descends(xi + cw, yi + ch, wi, hi, levels as int, li);
        assert(point_band(kids[0], w, h, levels) == (levels, Band::LH));
        assert(point_band(kids[1], w, h, levels) == (levels, Band::HL));
        assert(point_band(kids[2], w, h, levels) == (levels, Band::HH));
    } else {
        lemma_band_detail(xi, yi, wi, hi, levels as int, 1);
        if l >= 2 {
            // the block at depth l - 1 has even sides, half those at depth l - 2
            let d = (l - 1) as nat;
            let dd = (l - 2) as nat;
            lemma_block_value(wi, mw, li, d);
            lemma_block_value(hi, mh, li, d);
            lemma_block_value(wi, mw, li, dd);
            lemma_block_value(hi, mh, li, dd);
            let bw = block_side(wi, d);
            let bh = block_side(hi, d);
            assert(block_side(wi, dd) == 2 * bw && block_side(hi, dd) == 2 * bh);
            lemma_block_shrinks(wi, dd, 0);
            lemma_block_shrinks(hi, dd, 0);
            assert forall|k: int| 0 <= k < 4 implies #[trigger] point_band(kids[k], w, h, levels) == (
                (l - 1) as u8,
                b,
            ) by {
                let cx = 2 * xi + (k % 2);
                let cy = 2 * yi + (k / 2);
                assert(kids[k] == (cx as usize, cy as usize));
                lemma_band_descends(cx, cy, wi, hi, levels as int, d);
            }
        }
    }
}

/// Child `k` of `p` is `c`.
pub open spec fn claims_at(p: (usize, usize), k: int, c: (usize, usize), w: usize, h: usize, levels: u8) -> bool {
    let kids = children_spec(p.0 as int, p.1 as int, w, h, levels);
    0 <= k < kids.len() && kids[k] == c
}

/// The parent of a detail coefficient `c`, and its place among the parent's
/// children: a coefficient of the deepest level hangs from the approximation
/// coefficient at the same place; a finer one from the coefficient at half its
/// coordinates.
pub open spec fn parent_of(c: (usize, usize), w: usize, h: usize, levels: u8) -> ((usize, usize), int) {
    let (l, b) = point_band(c, w, h, levels);
    let (cx, cy) = (c.0 as int, c.1 as int);
    let mw = (w >> levels) as int;
    let mh = (h >> levels) as int;
    if l == levels {
        if b == Band::LH {
            (((cx - mw) as usize, c.1), 0)
        } else if b == Band::HL {
            ((c.0, (cy - mh) as usize), 1)
        } else {
            (((cx - mw) as usize, (cy - mh) as usize), 2)
        }
    } else {
        (((cx / 2) as usize, (cy / 2) as usize), cx % 2 + 2 * (cy % 2))
    }
}

/// The sides of the blocks of a pyramid whose sides are multiples of
/// `2^levels`: even above the deepest level, where the block is `w >> levels`.
proof fn lemma_sides(w: usize, levels: u8)
    requires
        1 <= levels,
        (levels as u32) < usize::BITS,
        w as nat % pow2(levels as nat) == 0,
    ensures
        (w >> levels) as int == block_side(w as int, levels as nat),
        forall|k: nat| k < levels ==> #[trigger] block_side(w as int, k) % 2 == 0,
        forall|k: nat| k <= levels ==> 0 <= #[trigger] block_side(w as int, k) <= w,
{
    let li = levels as nat;
    let wi = w as int;
    lemma_pow2_pos(li);
    let mw = wi / (pow2(li) as int);
    vstd::arithmetic::div_mod::lemma_fundamental_div_mod(wi, pow2(li) as int);
    assert(wi == mw * pow2(li) && mw >= 0) by (nonlinear_arith)
        requires
            wi == pow2(li) * mw,
            wi >= 0,
            pow2(li) > 0,
    ;
    lemma_block_value(wi, mw, li, li);
    lemma2_to64();
    assert((li - li) as nat == 0);
    assert(mw * pow2(0) == mw) by (nonlinear_arith)
        requires
            pow2(0) == 1,
    ;
    vstd::bits::lemma_usize_shr_is_div(w, levels as usize);
    assert((w >> levels) == (w >> (levels as usize))) by (bit_vector);
    assert forall|k: nat| k < levels implies #[trigger] block_side(wi, k) % 2 == 0 by {
        lemma_block_value(wi, mw, li, k);
    }
    assert forall|k: nat| k <= levels implies 0 <= #[trigger] block_side(wi, k) <= w by {
        lemma_block_shrinks(wi, k, 0);
    }
}

/// A coefficient that claims `c` as a child is where `parent_of` says, and
/// `c` lies outside the approximation band.
proof fn lemma_claimant(p2: (usize, usize), k2: int, c: (usize, usize), w: usize, h: usize, levels: u8)
    requires
        1 <= levels,
        (levels as u32) < usize::BITS,
        w as nat % pow2(levels as nat) == 0,
        h as nat % pow2(levels as nat) == 0,
        c.0 < w,
        c.1 < h,
        p2.0 < w,
        p2.1 < h,
        claims_at(p2, k2, c, w, h, levels),
    ensures
        point_band(c, w, h, levels).1 != Band::LL,
        p2 == parent_of(c, w, h, levels).0,
        k2 == parent_of(c, w, h, levels).1,
{
    let L = levels as int;
    let li = levels as nat;
    let (wi, hi) = (w as int, h as int);
    let (cx, cy) = (c.0 as int, c.1 as int);
    let (px, py) = (p2.0 as int, p2.1 as int);
    lemma_sides(w, levels);
    lemma_sides(h, levels);
    let mw = (w >> levels) as int;
    let mh = (h >> levels) as int;
    let lm = (li - 1) as nat;
    assert(block_side(wi, lm) % 2 == 0 && block_side(hi, lm) % 2 == 0);
    assert(block_side(wi, lm) == 2 * mw && block_side(hi, lm) == 2 * mh);
    assert(2 * mw <= wi && 2 * mh <= hi);
    lemma_children_bands(p2.0, p2.1, w, h, levels);
    let (lc, bc) = point_band(c, w, h, levels);
    let (l2, b2) = point_band(p2, w, h, levels);
    let kids = children_spec(px, py, w, h, levels);
    assert(kids[k2] == c);
    lemma_band_descends(px, py, wi, hi, L, 1);
    if b2 == Band::LL {
        lemma_band_ll(px, py, wi, hi, L, 1);
        assert(px < mw && py < mh);
        assert(kids.len() == 3);
        assert(lc == levels);
        if k2 == 0 {
            assert(bc == Band::LH);
            assert(cx == px + mw && cy == py);
        } else if k2 == 1 {
            assert(bc == Band::HL);
            assert(cx == px && cy == py + mh);
        } else {
            assert(bc == Band::HH);
            assert(cx == px + mw && cy == py + mh);
        }
    } else {
        lemma_band_detail(px, py, wi, hi, L, 1);
        assert(l2 >= 2);
        assert(kids.len() == 4);
        assert(point_band(kids[k2], w, h, levels) == ((l2 - 1) as u8, b2));
        assert(lc == l2 - 1 && lc < levels);
        let bw = block_side(wi, (l2 - 1) as nat);
        let bh = block_side(hi, (l2 - 1) as nat);
        assert(px < bw && py < bh && bw <= wi && bh <= hi);
        if k2 == 0 {
            assert(cx == 2 * px && cy == 2 * py);
        } else if k2 == 1 {
            assert(cx == 2 * px + 1 && cy == 2 * py);
        } else if k2 == 2 {
            assert(cx == 2 * px && cy == 2 * py + 1);
        } else {
            assert(cx == 2 * px + 1 && cy == 2 * py + 1);
        }
        assert(cx / 2 == px && cy / 2 == py);
    }
}

/// The parent links form a forest rooted in the approximation band: no
/// coefficient claims one of the approximation band as a child, and every
/// other coefficient is claimed exactly once, by `parent_of`.
pub proof fn lemma_forest(c: (usize, usize), w: usize, h: usize, levels: u8)
    requires
        1 <= levels,
        (levels as u32) < usize::BITS,
        w as nat % pow2(levels as nat) == 0,
        h as nat % pow2(levels as nat) == 0,
        c.0 < w,
        c.1 < h,
    ensures
        point_band(c, w, h, levels).1 == Band::LL ==> forall|p: (usize, usize), k: int|
            p.0 < w && p.1 < h ==> !#[trigger] claims_at(p, k, c, w, h, levels),
        point_band(c, w, h, levels).1 != Band::LL ==> {
            let (p, k) = parent_of(c, w, h, levels);
            &&& p.0 < w && p.1 < h
            &&& claims_at(p, k, c, w, h, levels)
            &&& forall|p2: (usize, usize), k2: int|
                p2.0 < w && p2.1 < h && #[trigger] claims_at(p2, k2, c, w, h, levels) ==> p2 == p && k2 == k
            &&& p.1 * w + p.0 < c.1 * w + c.0
        },
{
    let L = levels as int;
    let li = levels as nat;
    let (wi, hi) = (w as int, h as int);
    let (cx, cy) = (c.0 as int, c.1 as int);
    lemma_sides(w, levels);
    lemma_sides(h, levels);
    let mw = (w >> levels) as int;
    let mh = (h >> levels) as int;
    assert forall|p2: (usize, usize), k2: int|
        p2.0 < w && p2.1 < h && #[trigger] claims_at(p2, k2, c, w, h, levels) implies point_band(c, w, h, levels).1
            != Band::LL && p2 == parent_of(c, w, h, levels).0 && k2 == parent_of(c, w, h, levels).1 by {
        lemma_claimant(p2, k2, c, w, h, levels);
    }
    let (lc, bc) = point_band(c, w, h, levels);
    if bc != Band::LL {
        let (p, k) = parent_of(c, w, h, levels);
        lemma_band_descends(cx, cy, wi, hi, L, 1);
        lemma_band_detail(cx, cy, wi, hi, L, 1);
        let lcm = (lc - 1) as nat;
        if lc == levels {
            assert(block_side(wi, lcm) == 2 * mw && block_side(hi, lcm) == 2 * mh);
            assert(p.0 < mw && p.1 < mh);
            lemma_band_descends(p.0 as int, p.1 as int, wi, hi, L, li + 1);
            assert(point_band(p, w, h, levels) == (levels, Band::LL));
            let kids = children_spec(p.0 as int, p.1 as int, w, h, levels);
            assert(kids[k] == c);
            let (px, py) = (p.0 as int, p.1 as int);
            assert(px <= cx && py <= cy && (px < cx || py < cy));
            assert(py * wi + px < cy * wi + cx) by (nonlinear_arith)
                requires
                    0 <= px <= cx,
                    0 <= py <= cy,
                    px < cx || py < cy,
                    cx < wi,
            ;
        } else {
            let d = lc as nat;
            let bw = block_side(wi, lcm);
            let bh = block_side(hi, lcm);
            assert(bw % 2 == 0 && bh % 2 == 0);
            assert(block_side(wi, d) == bw / 2 && block_side(hi, d) == bh / 2);
            assert(block_side(wi, d) % 2 == 0 && block_side(hi, d) % 2 == 0);
            assert(p.0 as int == cx / 2 && p.1 as int == cy / 2);
            lemma_band_descends(p.0 as int, p.1 as int, wi, hi, L, d + 1);
            assert(point_band(p, w, h, levels) == ((lc + 1) as u8, bc));
            let kids = children_spec(p.0 as int, p.1 as int, w, h, levels);
            assert(kids[k] == c);
            let (px, py) = (p.0 as int, p.1 as int);
            assert(cx >= 1 || cy >= 1);
            assert(py * wi + px < cy * wi + cx) by (nonlinear_arith)
                requires
                    px == cx / 2,
                    py == cy / 2,
                    0 <= cx < wi,
                    0 <= cy,
                    cx >= 1 || cy >= 1,
            ;
        }
    }
}

/// No coefficient before `k` claims `c`: no first claim.
proof fn lemma_first_claim_none(w: usize, h: usize, levels: u8, c: int, k: nat)
    requires
        forall|i: int| 0 <= i < k ==> !#[trigger] claims(w, h, levels, i, c),
    ensures
        first_claim(w, h, levels, c, k) == None::<usize>,
    decreases k,
{
    if k > 0 {
        lemma_first_claim_none(w, h, levels, c, (k - 1) as nat);
    }
}

/// Exactly one coefficient `q` before `k` claims `c`: it is the first claim.
proof fn lemma_first_claim_one(w: usize, h: usize, levels: u8, c: int, k: nat, q: int)
    requires
        0 <= q < k,
        q <= usize::MAX,
        claims(w, h, levels, q, c),
        forall|i: int| 0 <= i < k && i != q ==> !#[trigger] claims(w, h, levels, i, c),
    ensures
        first_claim(w, h, levels, c, k) == Some(q as usize),
    decreases k,
{
    if k - 1 > q {
        lemma_first_claim_one(w, h, levels, c, (k - 1) as nat, q);
    } else {
        lemma_first_claim_none(w, h, levels, c, (k - 1) as nat);
    }
}

/// The parent table that the zerotree coder and its rebuild use is the
/// `children_of` forest: in a pyramid whose sides are multiples of
/// `2^levels`, a coefficient of the approximation band has no parent, and
/// every other coefficient has as parent exactly the coefficient whose
/// `children_of` names it (`parent_of`).
pub proof fn lemma_parents_are_the_forest(w: usize, h: usize, levels: u8, c: int)
    requires
        1 <= levels,
        (levels as u32) < usize::BITS,
        w as nat % pow2(levels as nat) == 0,
        h as nat % pow2(levels as nat) == 0,
        w * h <= usize::MAX,
        0 <= c < w * h,
    ensures
        ({
            let cp = ((c % (w as int)) as usize, (c / (w as int)) as usize);
            let par = parents(w, h, levels, (w * h) as nat);
            &&& point_band(cp, w, h, levels).1 == Band::LL ==> par[c] == None::<usize>
            &&& point_band(cp, w, h, levels).1 != Band::LL ==> {
                let p = parent_of(cp, w, h, levels).0;
                par[c] == Some((p.1 * w + p.0) as usize)
            }
        }),
{
    let wi = w as int;
    let n = (w * h) as nat;
    assert(w > 0) by (nonlinear_arith)
        requires
            0 <= c < w * h,
    ;
    vstd::arithmetic::div_mod::lemma_fundamental_div_mod(c, wi);
    let (cx, cy) = (c % wi, c / wi);
    assert(0 <= cx < wi);
    assert(cy < h as int) by (nonlinear_arith)
        requires
            c == wi * cy + cx,
            0 <= cx,
            c < wi * (h as int),
            wi > 0,
    ;
    assert(cy >= 0) by (nonlinear_arith)
        requires
            c == wi * cy + cx,
            0 <= c,
            cx < wi,
            wi > 0,
    ;
    let cp = (cx as usize, cy as usize);
    lemma_forest(cp, w, h, levels);
    // a claim of `c` by coefficient `i` is `children_of` of `i` naming `cp`
    assert forall|i: int| 0 <= i < n && #[trigger] claims(w, h, levels, i, c) implies point_band(
        cp,
        w,
        h,
        levels,
    ).1 != Band::LL && ((i % wi) as usize, (i / wi) as usize) == parent_of(cp, w, h, levels).0 by {
        let kids = children_spec(i % wi, i / wi, w, h, levels);
        let k = choose|k: int| 0 <= k < 4 && k < kids.len() && kid_index(w, h, #[trigger] kids[k]) == Some(c);
        vstd::arithmetic::div_mod::lemma_fundamental_div_mod(i, wi);
        let (ix, iy) = (i % wi, i / wi);
        assert(iy < h as int && iy >= 0) by (nonlinear_arith)
            requires
                i == wi * iy + ix,
                0 <= ix < wi,
                0 <= i < wi * (h as int),
                wi > 0,
        ;
        let p2 = (ix as usize, iy as usize);
        let kid = kids[k];
        lemma_grid_index(kid.0 as int, kid.1 as int, wi, h as int);
        assert(kid.1 * w + kid.0 == c);
        assert(kid == cp);
        assert(claims_at(p2, k, cp, w, h, levels));
    }
    if point_band(cp, w, h, levels).1 == Band::LL {
        lemma_first_claim_none(w, h, levels, c, n);
    } else {
        let (p, k) = parent_of(cp, w, h, levels);
        let q = p.1 * w + p.0;
        lemma_grid_index(p.0 as int, p.1 as int, wi, h as int);
        let kids = children_spec(p.0 as int, p.1 as int, w, h, levels);
        assert(kids.len() <= 4);
        assert(kid_index(w, h, kids[k]) == Some(c)) by {
            assert(kids[k] == cp);
            assert(cy * wi + cx == c);
        }
        assert(claims(w, h, levels, q, c));
        assert forall|i: int| 0 <= i < n && i != q implies !#[trigger] claims(w, h, levels, i, c) by {
            if claims(w, h, levels, i, c) {
                vstd::arithmetic::div_mod::lemma_fundamental_div_mod(i, wi);
                assert(i == (i / wi) * wi + i % wi) by (nonlinear_arith)
                    requires
                        i == wi * (i / wi) + i % wi,
                ;
            }
        }
        lemma_first_claim_one(w, h, levels, c, n, q);
    }
}

} // verus!
