//! The zerotree coder: which band a coefficient lies in, its children one
//! level finer, the forest of parent links, and embedded zerotree coding of
//! the coefficients in dominant and refinement passes, with the rebuild from
//! the two symbol streams.
use vstd::prelude::*;
use crate::{Band, Quantised, Symbol};

verus! {

/// Position of a band's quantiser step in the list of steps: the three detail
/// bands of level 1, then those of level 2, and so on, the approximation band
/// after the detail bands of its level.
pub open spec fn band_scale_index(level: u8, band: Band) -> int {
    match band {
        Band::LH => 3 * (level - 1),
        Band::HL => 3 * (level - 1) + 1,
        Band::HH => 3 * (level - 1) + 2,
        Band::LL => 3 * level,
    }
}

/// Index into the list of quantiser steps for a band of a given level.
pub fn scale_index(level: u8, band: Band) -> (i: usize)
    requires
        band == Band::LL ==> 3 * level <= 255,
        band != Band::LL ==> level >= 1,
    ensures
        i == band_scale_index(level, band),
{
    match band {
        Band::LH => (level as usize - 1) * 3,
        Band::HL => (level as usize - 1) * 3 + 1,
        Band::HH => (level as usize - 1) * 3 + 2,
        Band::LL => (3 * level) as usize,
    }
}

/// The bands of a pyramid of `levels` levels: the three detail bands of each
/// level from 1 to `levels`, and the approximation band of level `levels`.
pub open spec fn is_pyramid_band(levels: u8, level: u8, band: Band) -> bool {
    if band == Band::LL {
        level == levels
    } else {
        1 <= level <= levels
    }
}

/// The band whose step stands at position `i` of the list of steps of a
/// pyramid of `levels` levels.
pub open spec fn band_at_scale_index(levels: u8, i: int) -> (u8, Band) {
    if i == 3 * levels {
        (levels, Band::LL)
    } else {
        (
            (i / 3 + 1) as u8,
            if i % 3 == 0 {
                Band::LH
            } else if i % 3 == 1 {
                Band::HL
            } else {
                Band::HH
            },
        )
    }
}

/// `scale_index` numbers the bands of a pyramid of `levels` levels one to one
/// onto `0..=3 * levels`: each band gets a position in that range, no two
/// bands share one, and every position belongs to a band.
pub proof fn lemma_scale_index_bijection(levels: u8)
    requires
        1 <= levels,
        3 * levels <= 255,
    ensures
        forall|l: u8, b: Band|
            is_pyramid_band(levels, l, b) ==> 0 <= #[trigger] band_scale_index(l, b) <= 3 * levels,
        forall|l1: u8, b1: Band, l2: u8, b2: Band|
            is_pyramid_band(levels, l1, b1) && is_pyramid_band(levels, l2, b2) && #[trigger] band_scale_index(l1, b1)
                == #[trigger] band_scale_index(l2, b2) ==> l1 == l2 && b1 == b2,
        forall|i: int|
            0 <= i <= 3 * levels ==> {
                let (l, b) = #[trigger] band_at_scale_index(levels, i);
                is_pyramid_band(levels, l, b) && band_scale_index(l, b) == i
            },
{
}

/// The detail band of a point that lies in the detail region of a block
/// whose top-left quadrant has size `hw` by `hh`.
pub open spec fn detail_band(x: int, y: int, hw: int, hh: int) -> Band {
    if x >= hw && y < hh {
        Band::LH
    } else if x < hw && y >= hh {
        Band::HL
    } else {
        Band::HH
    }
}

/// Level and band of the point `(x, y)`, searching from `level` on in a
/// block of size `cw` by `ch`: the first level whose detail region (the block
/// less its top-left quadrant) holds the point, else the approximation band of
/// the deepest level.
pub open spec fn band_from(x: int, y: int, cw: int, ch: int, level: int, levels: int) -> (u8, Band)
    decreases levels - level + 1,
{
    if level > levels {
        (levels as u8, Band::LL)
    } else if x < cw && y < ch && (x >= cw / 2 || y >= ch / 2) {
        (level as u8, detail_band(x, y, cw / 2, ch / 2))
    } else {
        band_from(x, y, cw / 2, ch / 2, level + 1, levels)
    }
}

/// Level and band of the coefficient at `(x, y)` in a `w` by `h` pyramid of
/// `levels` levels.
pub fn level_and_band_of(x: usize, y: usize, w: usize, h: usize, levels: u8) -> (r: (u8, Band))
    ensures
        r == band_from(x as int, y as int, w as int, h as int, 1, levels as int),
{
    let mut cw: usize = w;
    let mut ch: usize = h;
    let mut level: u16 = 1;
    while level <= levels as u16
        invariant
            1 <= level <= levels as u16 + 1,
            band_from(x as int, y as int, w as int, h as int, 1, levels as int) == band_from(
                x as int,
                y as int,
                cw as int,
                ch as int,
                level as int,
                levels as int,
            ),
        decreases levels as u16 + 1 - level,
    {
        let hw = cw / 2;
        let hh = ch / 2;
        if x < cw && y < ch && (x >= hw || y >= hh) {
            let band = if x >= hw && y < hh {
                Band::LH
            } else if x < hw && y >= hh {
                Band::HL
            } else {
                Band::HH
            };
            return (level as u8, band);
        }
        cw = hw;
        ch = hh;
        level += 1;
    }
    (levels, Band::LL)
}

/// The children of `(x, y)` in the zerotree: for the approximation band, the
/// three points at the same place in the three detail bands of the deepest
/// level; for a detail band above level 1, the four points of the same band
/// one level finer; none at level 1.
pub open spec fn children_spec(x: int, y: int, w: usize, h: usize, levels: u8) -> Seq<(usize, usize)> {
    let (level, band) = band_from(x, y, w as int, h as int, 1, levels as int);
    if band == Band::LL {
        let cw = (w >> levels) as int;
        let ch = (h >> levels) as int;
        seq![((x + cw) as usize, y as usize), (x as usize, (y + ch) as usize), ((x + cw) as usize, (y + ch) as usize)]
    } else if level == 1 {
        Seq::empty()
    } else {
        seq![
            ((2 * x) as usize, (2 * y) as usize),
            ((2 * x + 1) as usize, (2 * y) as usize),
            ((2 * x) as usize, (2 * y + 1) as usize),
            ((2 * x + 1) as usize, (2 * y + 1) as usize),
        ]
    }
}

/// The children of the coefficient at `(x, y)` in the zerotree.
pub fn children_of(x: usize, y: usize, w: usize, h: usize, levels: u8) -> (children: Vec<(usize, usize)>)
    requires
        (levels as u32) < usize::BITS,
        x + (w >> levels) <= usize::MAX,
        y + (h >> levels) <= usize::MAX,
        2 * x + 1 <= usize::MAX,
        2 * y + 1 <= usize::MAX,
    ensures
        children@ == children_spec(x as int, y as int, w, h, levels),
{
    let (level, band) = level_and_band_of(x, y, w, h, levels);
    let mut children: Vec<(usize, usize)> = Vec::new();
    if band == Band::LL {
        let cw = w >> levels;
        let ch = h >> levels;
        children.push((x + cw, y));
        children.push((x, y + ch));
        children.push((x + cw, y + ch));
        assert(children@ =~= children_spec(x as int, y as int, w, h, levels));
        children
    } else if level == 1 {
        assert(children@ =~= children_spec(x as int, y as int, w, h, levels));
        children
    } else {
        children.push((2 * x, 2 * y));
        children.push((2 * x + 1, 2 * y));
        children.push((2 * x, 2 * y + 1));
        children.push((2 * x + 1, 2 * y + 1));
        assert(children@ =~= children_spec(x as int, y as int, w, h, levels));
        children
    }
}

/// The coefficient a dominant symbol stands for: its sign.
pub open spec fn symbol_sign(s: Symbol) -> i16 {
    match s {
        Symbol::Positive => 1i16,
        Symbol::Negative => -1i16,
        _ => 0i16,
    }
}

/// Number of coefficients of a `w` by `h` channel.
pub fn symbol_count(w: usize, h: usize, _dwt_depth: u8) -> (n: usize)
    requires
        w * h <= usize::MAX,
    ensures
        n == w * h,
{
    w * h
}

/// Coefficients back from one symbol each: the sign a dominant symbol stands
/// for (0 for the other symbols), with the given shape and steps.
pub fn unbuild(symbols: &[Symbol], w: usize, h: usize, levels: u8, scales: Vec<u32>) -> (q: Quantised)
    ensures
        q.w == w,
        q.h == h,
        q.levels == levels,
        q.scales@ == scales@,
        q.data@ == Seq::new(symbols@.len(), |i: int| symbol_sign(symbols@[i])),
{
    let mut data: Vec<i16> = Vec::new();
    let mut i: usize = 0;
    while i < symbols.len()
        invariant
            i <= symbols@.len(),
            data@ == Seq::new(i as nat, |k: int| symbol_sign(symbols@[k])),
        decreases symbols@.len() - i,
    {
        let v: i16 = match symbols[i] {
            Symbol::ZeroTree => 0,
            Symbol::Positive => 1,
            Symbol::Negative => -1,
            Symbol::IsolatedZero => 0,
            Symbol::RefineOne => 0,
            Symbol::RefineZero => 0,
        };
        data.push(v);
        i += 1;
        assert(data@ =~= Seq::new(i as nat, |k: int| symbol_sign(symbols@[k])));
    }
    Quantised { w, h, levels, scales, data }
}

// -------------------- The zerotree forest --------------------

/// Index of a child point, when it lies inside the `w` by `h` grid.
pub open spec fn kid_index(w: usize, h: usize, kid: (usize, usize)) -> Option<int> {
    if kid.0 < w && kid.1 < h {
        Some(kid.1 * w + kid.0)
    } else {
        None
    }
}

/// Some of the first `j` children of coefficient `i` (row-major index in a
/// `w` wide grid) is coefficient `c`, which comes after `i`.
pub open spec fn claims_upto(w: usize, h: usize, levels: u8, i: int, c: int, j: int) -> bool {
    let kids = children_spec(i % (w as int), i / (w as int), w, h, levels);
    &&& i < c
    &&& exists|k: int| 0 <= k < j && k < kids.len() && kid_index(w, h, #[trigger] kids[k]) == Some(c)
}

/// `children_of` of coefficient `i` names coefficient `c`, which comes after
/// `i`.
pub open spec fn claims(w: usize, h: usize, levels: u8, i: int, c: int) -> bool {
    claims_upto(w, h, levels, i, c, 4)
}

/// The first of the coefficients `0..k` that claims `c` as a child.
pub open spec fn first_claim(w: usize, h: usize, levels: u8, c: int, k: nat) -> Option<usize>
    decreases k,
{
    if k == 0 {
        None
    } else {
        match first_claim(w, h, levels, c, (k - 1) as nat) {
            Some(p) => Some(p),
            None => if claims(w, h, levels, k - 1, c) {
                Some((k - 1) as usize)
            } else {
                None
            },
        }
    }
}

/// The parent of each of the `n` coefficients: the first coefficient before
/// it whose `children_of` names it. The links form a forest in which every
/// parent comes before its children.
pub open spec fn parents(w: usize, h: usize, levels: u8, n: nat) -> Seq<Option<usize>> {
    Seq::new(n, |c: int| first_claim(w, h, levels, c, n))
}

/// Every parent comes before its child.
pub open spec fn parents_ok(par: Seq<Option<usize>>) -> bool {
    forall|c: int| 0 <= c < par.len() ==> match #[trigger] par[c] {
        Some(p) => p < c,
        None => true,
    }
}

proof fn lemma_first_claim_before(w: usize, h: usize, levels: u8, c: int, k: nat)
    ensures
        first_claim(w, h, levels, c, k) matches Some(p) ==> p < c && p < k,
    decreases k,
{
    if k > 0 {
        lemma_first_claim_before(w, h, levels, c, (k - 1) as nat);
    }
}

pub proof fn lemma_parents_ok(w: usize, h: usize, levels: u8, n: nat)
    ensures
        parents_ok(parents(w, h, levels, n)),
        parents(w, h, levels, n).len() == n,
{
    assert forall|c: int| 0 <= c < n implies match #[trigger] parents(w, h, levels, n)[c] {
        Some(p) => p < c,
        None => true,
    } by {
        lemma_first_claim_before(w, h, levels, c, n);
    }
}

pub proof fn lemma_grid_index(x: int, y: int, w: int, h: int)
    requires
        0 <= x < w,
        0 <= y < h,
    ensures
        0 <= y * w + x < w * h,
        (y * w + x) % w == x,
        (y * w + x) / w == y,
{
    assert(0 <= y * w + x < w * h) by (nonlinear_arith)
        requires
            0 <= x < w,
            0 <= y < h,
    ;
    vstd::arithmetic::div_mod::lemma_fundamental_div_mod_converse(y * w + x, w, y, x);
}

/// The parent table of a `w` by `h` grid with `levels` levels.
fn parent_table(w: usize, h: usize, levels: u8, n: usize) -> (tab: Vec<Option<usize>>)
    requires
        n == w * h,
        2 * w + 1 <= usize::MAX,
        2 * h + 1 <= usize::MAX,
        (levels as u32) < usize::BITS,
    ensures
        tab@ == parents(w, h, levels, n as nat),
{
    let mut tab: Vec<Option<usize>> = Vec::new();
    let mut c: usize = 0;
    while c < n
        invariant
            c <= n,
            tab@ == Seq::new(c as nat, |k: int| None::<usize>),
        decreases n - c,
    {
        tab.push(None);
        c += 1;
    }
    assert(tab@ =~= Seq::new(n as nat, |k: int| first_claim(w, h, levels, k, 0)));
    let mut i: usize = 0;
    while i < n
        invariant
            i <= n,
            n == w * h,
            2 * w + 1 <= usize::MAX,
            2 * h + 1 <= usize::MAX,
            (levels as u32) < usize::BITS,
            tab@ == Seq::new(n as nat, |k: int| first_claim(w, h, levels, k, i as nat)),
        decreases n - i,
    {
        proof {
            assert(w > 0) by (nonlinear_arith)
                requires
                    i < n,
                    n == w * h,
            ;
        }
        let x = i % w;
        let y = i / w;
        proof {
            assert(y < h) by (nonlinear_arith)
                requires
                    i < w * h,
                    y == i / w,
                    w > 0,
            ;
            assert((w >> levels) <= w) by (bit_vector);
            assert((h >> levels) <= h) by (bit_vector);
        }
        let kids = children_of(x, y, w, h, levels);
        let ghost kids_spec = children_spec(x as int, y as int, w, h, levels);
        assert(kids_spec.len() <= 4);
        let mut j: usize = 0;
        while j < kids.len()
            invariant
                j <= kids@.len(),
                kids@ == kids_spec,
                kids_spec == children_spec(i as int % (w as int), i as int / (w as int), w, h, levels),
                kids_spec.len() <= 4,
                i < n,
                n == w * h,
                tab@.len() == n,
                forall|k: int|
                    0 <= k < n ==> #[trigger] tab@[k] == match first_claim(w, h, levels, k, i as nat) {
                        Some(p) => Some(p),
                        None => if claims_upto(w, h, levels, i as int, k, j as int) {
                            Some(i)
                        } else {
                            None
                        },
                    },
            decreases kids@.len() - j,
        {
            let (cx, cy) = kids[j];
            if cx < w && cy < h {
                proof {
                    lemma_grid_index(cx as int, cy as int, w as int, h as int);
                }
                let k = cy * w + cx;
                if k > i && tab[k].is_none() {
                    tab.set(k, Some(i));
                }
            }
            j += 1;
        }
        assert forall|k: int| 0 <= k < n implies #[trigger] tab@[k] == first_claim(w, h, levels, k, (i + 1) as nat) by {
            if claims_upto(w, h, levels, i as int, k, j as int) {
                let kk = choose|kk: int| 0 <= kk < j && kk < kids_spec.len() && kid_index(w, h, #[trigger] kids_spec[kk]) == Some(k);
                assert(claims_upto(w, h, levels, i as int, k, 4));
            }
            if claims(w, h, levels, i as int, k) {
                let kk = choose|kk: int| 0 <= kk < 4 && kk < kids_spec.len() && kid_index(w, h, #[trigger] kids_spec[kk]) == Some(k);
                assert(claims_upto(w, h, levels, i as int, k, j as int));
            }
        }
        assert(tab@ =~= Seq::new(n as nat, |k: int| first_claim(w, h, levels, k, (i + 1) as nat)));
        i += 1;
    }
    tab
}

/// `j` lies in the subtree of `i`: following parents from `j` reaches `i`.
pub open spec fn is_desc(par: Seq<Option<usize>>, j: int, i: int) -> bool
    decreases j,
{
    if j == i {
        true
    } else if j < i || j >= par.len() {
        false
    } else {
        match par[j] {
            Some(p) => (p as int) < j && is_desc(par, p as int, i),
            None => false,
        }
    }
}

/// Magnitude of a coefficient.
pub open spec fn mag(v: i16) -> int {
    if v < 0 {
        -v
    } else {
        v as int
    }
}

/// Some coefficient in the subtree of `i` has magnitude at least `t`.
pub open spec fn big(data: Seq<i16>, par: Seq<Option<usize>>, t: int, i: int) -> bool {
    exists|j: int| i <= j < data.len() && #[trigger] is_desc(par, j, i) && mag(data[j]) >= t
}

proof fn lemma_desc_range(par: Seq<Option<usize>>, j: int, i: int)
    requires
        is_desc(par, j, i),
    ensures
        j == i || (i < j < par.len()),
{
}

proof fn lemma_desc_step(par: Seq<Option<usize>>, j: int, c: int, i: int)
    requires
        parents_ok(par),
        par.len() <= usize::MAX,
        0 <= i < c,
        0 <= c < par.len(),
        par[c] == Some(i as usize),
        is_desc(par, j, c),
    ensures
        is_desc(par, j, i),
    decreases j,
{
    lemma_desc_range(par, j, c);
    assert((i as usize) as int == i);
    if j != c {
        let p = par[j]->0 as int;
        lemma_desc_range(par, p, c);
        lemma_desc_step(par, p, c, i);
    } else {
        assert(is_desc(par, i, i));
    }
}

/// The subtree of `i` holds a large coefficient exactly when `i` is large or
/// the subtree of one of its children does.
proof fn lemma_big_unfold(data: Seq<i16>, par: Seq<Option<usize>>, t: int, i: int)
    requires
        parents_ok(par),
        par.len() == data.len(),
        par.len() <= usize::MAX,
        0 <= i < data.len(),
    ensures
        big(data, par, t, i) == (mag(data[i]) >= t || exists|c: int|
            i < c < data.len() && par[c] == Some(i as usize) && #[trigger] big(data, par, t, c)),
{
    if big(data, par, t, i) && mag(data[i]) < t {
        let j = choose|j: int| i <= j < data.len() && #[trigger] is_desc(par, j, i) && mag(data[j]) >= t;
        let c = lemma_child_on_path(par, j, i);
        assert(is_desc(par, j, c));
        assert(big(data, par, t, c));
    }
    if exists|c: int| i < c < data.len() && par[c] == Some(i as usize) && #[trigger] big(data, par, t, c) {
        let c = choose|c: int| i < c < data.len() && par[c] == Some(i as usize) && #[trigger] big(data, par, t, c);
        let j = choose|j: int| c <= j < data.len() && #[trigger] is_desc(par, j, c) && mag(data[j]) >= t;
        lemma_desc_step(par, j, c, i);
    }
    if mag(data[i]) >= t {
        assert(is_desc(par, i, i));
    }
}

/// A strict descendant of `i` lies in the subtree of a child of `i`.
proof fn lemma_child_on_path(par: Seq<Option<usize>>, j: int, i: int) -> (c: int)
    requires
        parents_ok(par),
        par.len() <= usize::MAX,
        0 <= i,
        is_desc(par, j, i),
        j != i,
    ensures
        i < c <= j,
        c < par.len(),
        par[c] == Some(i as usize),
        is_desc(par, j, c),
    decreases j,
{
    let p = par[j]->0 as int;
    lemma_desc_range(par, j, i);
    lemma_desc_range(par, p, i);
    assert((i as usize) as int == i);
    if p == i {
        j
    } else {
        let c = lemma_child_on_path(par, p, i);
        assert(is_desc(par, j, c)) by {
            lemma_desc_via_parent(par, j, p, c);
        }
        c
    }
}

proof fn lemma_desc_via_parent(par: Seq<Option<usize>>, j: int, p: int, c: int)
    requires
        parents_ok(par),
        par.len() <= usize::MAX,
        0 <= c,
        0 <= p < par.len(),
        0 <= j < par.len(),
        par[j] == Some(p as usize),
        is_desc(par, p, c),
        c <= p,
    ensures
        is_desc(par, j, c),
{
    lemma_desc_range(par, p, c);
    assert((p as usize) as int == p);
    assert(p < j);
}

/// The subtree of a child lies in the subtree of its parent.
pub proof fn lemma_big_parent(data: Seq<i16>, par: Seq<Option<usize>>, t: int, c: int)
    requires
        parents_ok(par),
        par.len() == data.len(),
        par.len() <= usize::MAX,
        0 <= c < data.len(),
        par[c] is Some,
        big(data, par, t, c),
    ensures
        big(data, par, t, par[c]->0 as int),
{
    let p = par[c]->0 as int;
    let j = choose|j: int| c <= j < data.len() && #[trigger] is_desc(par, j, c) && mag(data[j]) >= t;
    lemma_desc_step(par, j, c, p);
}

fn magnitude(v: i16) -> (m: u32)
    ensures
        m == mag(v),
{
    if v < 0 {
        (0i32 - v as i32) as u32
    } else {
        v as u32
    }
}

/// Marks the coefficients whose subtree holds a magnitude of at least `t`.
fn subtree_big(data: &Vec<i16>, par: &Vec<Option<usize>>, t: u32) -> (b: Vec<bool>)
    requires
        parents_ok(par@),
        par@.len() == data@.len(),
    ensures
        b@ == Seq::new(data@.len(), |i: int| big(data@, par@, t as int, i)),
{
    let n = data.len();
    let mut b: Vec<bool> = Vec::new();
    let mut k: usize = 0;
    while k < n
        invariant
            k <= n,
            b@ == Seq::new(k as nat, |i: int| false),
        decreases n - k,
    {
        b.push(false);
        k += 1;
    }
    let mut k: usize = n;
    while k > 0
        invariant
            k <= n,
            n == data@.len(),
            parents_ok(par@),
            par@.len() == n,
            b@.len() == n,
            forall|i: int| k <= i < n ==> #[trigger] b@[i] == big(data@, par@, t as int, i),
            forall|i: int|
                0 <= i < k ==> #[trigger] b@[i] == exists|c: int|
                    k <= c < n && par@[c] == Some(i as usize) && #[trigger] big(data@, par@, t as int, c),
        decreases k,
    {
        k -= 1;
        proof {
            lemma_big_unfold(data@, par@, t as int, k as int);
        }
        let here = b[k] || magnitude(data[k]) >= t;
        b.set(k, here);
        match par[k] {
            Some(p) => {
                if here {
                    b.set(p, true);
                }
            },
            None => {},
        }
        proof {
            assert forall|i: int| 0 <= i < k implies #[trigger] b@[i] == exists|c: int|
                k <= c < n && par@[c] == Some(i as usize) && #[trigger] big(data@, par@, t as int, c) by {
                if par@[k as int] == Some(i as usize) && here {
                    assert(big(data@, par@, t as int, k as int));
                }
            }
        }
    }
    assert(b@ =~= Seq::new(n as nat, |i: int| big(data@, par@, t as int, i)));
    b
}

// -------------------- EZW coding --------------------

/// The parent of `i` ended a zerotree or lies inside one in this pass.
pub open spec fn inherited(par: Seq<Option<usize>>, q: Seq<bool>, i: int) -> bool {
    match par[i] {
        Some(p) => (p as int) < q.len() && q[p as int],
        None => false,
    }
}

/// The significance symbol of a nonzero coefficient.
pub open spec fn sign_symbol(v: i16) -> Symbol {
    if v > 0 {
        Symbol::Positive
    } else {
        Symbol::Negative
    }
}

/// The dominant pass at threshold `t` over the first `k` coefficients: which
/// of them lie in a zerotree (its root included), and the symbols emitted. A
/// coefficient inside a zerotree, or significant since an earlier pass,
/// emits nothing; otherwise it emits its sign if its magnitude reaches `t`,
/// a zerotree root if nothing in its subtree reaches `t`, else an isolated
/// zero.
pub open spec fn enc_dom(data: Seq<i16>, par: Seq<Option<usize>>, t: int, k: nat) -> (Seq<bool>, Seq<Symbol>)
    decreases k,
{
    if k == 0 {
        (Seq::empty(), Seq::empty())
    } else {
        let (q, out) = enc_dom(data, par, t, (k - 1) as nat);
        let i = k - 1;
        let m = mag(data[i]);
        if inherited(par, q, i) {
            (q.push(true), out)
        } else if m >= 2 * t {
            (q.push(false), out)
        } else if m >= t {
            (q.push(false), out.push(sign_symbol(data[i])))
        } else if !big(data, par, t, i) {
            (q.push(true), out.push(Symbol::ZeroTree))
        } else {
            (q.push(false), out.push(Symbol::IsolatedZero))
        }
    }
}

/// The refinement pass at threshold `t` over the first `k` coefficients:
/// every coefficient significant since an earlier pass sends the bit of its
/// magnitude worth `t`.
pub open spec fn enc_ref(data: Seq<i16>, t: int, k: nat) -> Seq<Symbol>
    decreases k,
{
    if k == 0 {
        Seq::empty()
    } else {
        let out = enc_ref(data, t, (k - 1) as nat);
        let m = mag(data[k - 1]);
        if m >= 2 * t {
            out.push(if (m / t) % 2 == 1 {
                Symbol::RefineOne
            } else {
                Symbol::RefineZero
            })
        } else {
            out
        }
    }
}

/// The symbols of all passes from threshold `t` down to 1, halving each
/// time: each pass's dominant symbols, then its refinement symbols.
pub open spec fn ezw_symbols(data: Seq<i16>, par: Seq<Option<usize>>, t: nat) -> Seq<Symbol>
    decreases t,
{
    if t == 0 {
        Seq::empty()
    } else {
        enc_dom(data, par, t as int, data.len()).1 + enc_ref(data, t as int, data.len()) + ezw_symbols(
            data,
            par,
            t / 2,
        )
    }
}

/// The start threshold: the largest power of two not above the largest
/// magnitude, or 0 when every coefficient is 0.
pub open spec fn start_threshold_ok(data: Seq<i16>, t0: nat) -> bool {
    ||| t0 == 0 && forall|i: int| 0 <= i < data.len() ==> #[trigger] mag(data[i]) == 0
    ||| {
        &&& exists|k: nat| t0 == vstd::arithmetic::power2::pow2(k)
        &&& exists|i: int| 0 <= i < data.len() && #[trigger] mag(data[i]) >= t0
        &&& forall|i: int| 0 <= i < data.len() ==> #[trigger] mag(data[i]) < 2 * t0
    }
}

/// The largest magnitude of the coefficients, 0 for none.
pub open spec fn max_mag(data: Seq<i16>) -> int
    decreases data.len(),
{
    if data.len() == 0 {
        0
    } else {
        let m = max_mag(data.drop_last());
        if mag(data.last()) > m {
            mag(data.last())
        } else {
            m
        }
    }
}

/// The largest power of two not above `m`, 0 for 0.
pub open spec fn pow2_floor(m: nat) -> nat
    decreases m,
{
    if m < 2 {
        m
    } else {
        2 * pow2_floor(m / 2)
    }
}

/// The start threshold of a coefficient plane: the largest power of two not
/// above its largest magnitude, 0 when every coefficient is 0.
pub open spec fn start_threshold(data: Seq<i16>) -> nat {
    pow2_floor(max_mag(data) as nat)
}

proof fn lemma_max_mag(data: Seq<i16>)
    ensures
        0 <= max_mag(data) <= 32768,
        forall|i: int| 0 <= i < data.len() ==> #[trigger] mag(data[i]) <= max_mag(data),
        max_mag(data) > 0 ==> exists|i: int| 0 <= i < data.len() && #[trigger] mag(data[i]) == max_mag(data),
    decreases data.len(),
{
    if data.len() > 0 {
        let d = data.drop_last();
        lemma_max_mag(d);
        assert forall|i: int| 0 <= i < data.len() implies #[trigger] mag(data[i]) <= max_mag(data) by {
            if i < d.len() {
                assert(data[i] == d[i]);
            }
        }
        if max_mag(data) > 0 {
            if mag(data.last()) > max_mag(d) {
                assert(mag(data[data.len() - 1]) == max_mag(data));
            } else {
                let i = choose|i: int| 0 <= i < d.len() && #[trigger] mag(d[i]) == max_mag(d);
                assert(data[i] == d[i]);
            }
        }
    }
}

proof fn lemma_pow2_floor(m: nat)
    ensures
        m == 0 ==> pow2_floor(m) == 0,
        m > 0 ==> exists|k: nat| pow2_floor(m) == vstd::arithmetic::power2::pow2(k),
        m > 0 ==> pow2_floor(m) <= m < 2 * pow2_floor(m),
    decreases m,
{
    if m >= 2 {
        lemma_pow2_floor(m / 2);
        let k = choose|k: nat| pow2_floor(m / 2) == vstd::arithmetic::power2::pow2(k);
        vstd::arithmetic::power2::lemma_pow2_unfold(k + 1);
        assert(pow2_floor(m) == vstd::arithmetic::power2::pow2(k + 1));
    } else if m == 1 {
        vstd::arithmetic::power2::lemma2_to64();
        assert(pow2_floor(m) == vstd::arithmetic::power2::pow2(0));
    }
}

/// `start_threshold` meets `start_threshold_ok`, and it is the only
/// threshold that does.
pub proof fn lemma_start_threshold(data: Seq<i16>, t0: nat)
    ensures
        start_threshold_ok(data, start_threshold(data)),
        start_threshold(data) <= 32768,
        start_threshold_ok(data, t0) ==> t0 == start_threshold(data),
{
    let m = max_mag(data);
    lemma_max_mag(data);
    lemma_pow2_floor(m as nat);
    let t = start_threshold(data);
    if m > 0 {
        let iw = choose|i: int| 0 <= i < data.len() && #[trigger] mag(data[i]) == max_mag(data);
        assert(mag(data[iw]) >= t);
    }
    if start_threshold_ok(data, t0) {
        if t0 == 0 {
            if m > 0 {
                let iw = choose|i: int| 0 <= i < data.len() && #[trigger] mag(data[i]) == max_mag(data);
                assert(mag(data[iw]) == 0);
            }
        } else {
            let i1 = choose|i: int| 0 <= i < data.len() && #[trigger] mag(data[i]) >= t0;
            assert(m >= t0);
            let iw = choose|i: int| 0 <= i < data.len() && #[trigger] mag(data[i]) == max_mag(data);
            assert(m < 2 * t0);
            let k1 = choose|k: nat| t0 == vstd::arithmetic::power2::pow2(k);
            let k2 = choose|k: nat| t == vstd::arithmetic::power2::pow2(k);
            if k1 < k2 {
                vstd::arithmetic::power2::lemma_pow2_strictly_increases(k1, k2);
                vstd::arithmetic::power2::lemma_pow2_unfold(k1 + 1);
                if k1 + 1 < k2 {
                    vstd::arithmetic::power2::lemma_pow2_strictly_increases(k1 + 1, k2);
                }
                assert(false);
            } else if k2 < k1 {
                vstd::arithmetic::power2::lemma_pow2_unfold(k2 + 1);
                if k2 + 1 < k1 {
                    vstd::arithmetic::power2::lemma_pow2_strictly_increases(k2 + 1, k1);
                }
                assert(false);
            }
        }
    }
}

/// Embedded zerotree coding of the coefficients of `q`: the start threshold,
/// and the symbols of the passes from it down to 1, with `children_of` as the
/// parent-child relation.
pub fn build(q: &Quantised) -> (r: (u16, Vec<Symbol>))
    requires
        q.data@.len() == q.w * q.h,
        2 * q.w + 1 <= usize::MAX,
        2 * q.h + 1 <= usize::MAX,
        (q.levels as u32) < usize::BITS,
    ensures
        start_threshold_ok(q.data@, r.0 as nat),
        r.0 == start_threshold(q.data@),
        r.1@ == ezw_symbols(q.data@, parents(q.w, q.h, q.levels, q.data@.len()), r.0 as nat),
{
    let n = q.data.len();
    let par = parent_table(q.w, q.h, q.levels, n);
    let ghost data = q.data@;
    proof {
        lemma_parents_ok(q.w, q.h, q.levels, n as nat);
    }
    let mut top: u32 = 0;
    let mut i: usize = 0;
    while i < n
        invariant
            i <= n,
            n == data.len(),
            data == q.data@,
            forall|j: int| 0 <= j < i ==> #[trigger] mag(data[j]) <= top,
            top == 0 || exists|j: int| 0 <= j < i && #[trigger] mag(data[j]) == top,
            top <= 32768,
        decreases n - i,
    {
        let m = magnitude(q.data[i]);
        if m > top {
            top = m;
        }
        i += 1;
    }
    let mut t0: u32 = 0;
    if top > 0 {
        t0 = 1;
        let ghost mut k: nat = 0;
        proof {
            vstd::arithmetic::power2::lemma2_to64();
        }
        while t0 <= top / 2
            invariant
                1 <= t0 <= top,
                top <= 32768,
                t0 == vstd::arithmetic::power2::pow2(k),
            decreases top - t0,
        {
            t0 = t0 * 2;
            proof {
                vstd::arithmetic::power2::lemma_pow2_unfold(k + 1);
                k = k + 1;
            }
        }
        assert(exists|k: nat| t0 == vstd::arithmetic::power2::pow2(k));
    }
    let mut symbols: Vec<Symbol> = Vec::new();
    let mut t: u32 = t0;
    while t > 0
        invariant
            n == data.len(),
            data == q.data@,
            par@ == parents(q.w, q.h, q.levels, n as nat),
            parents_ok(par@),
            par@.len() == n,
            t <= 32768,
            symbols@ + ezw_symbols(data, par@, t as nat) == ezw_symbols(data, par@, t0 as nat),
        decreases t,
    {
        let b = subtree_big(&q.data, &par, t);
        let ghost start = symbols@;
        let mut qf: Vec<bool> = Vec::new();
        let mut i: usize = 0;
        while i < n
            invariant
                i <= n,
                n == data.len(),
                data == q.data@,
                par@.len() == n,
                parents_ok(par@),
                b@ == Seq::new(n as nat, |j: int| big(data, par@, t as int, j)),
                t <= 32768,
                qf@ == enc_dom(data, par@, t as int, i as nat).0,
                symbols@ == start + enc_dom(data, par@, t as int, i as nat).1,
                qf@.len() == i,
            decreases n - i,
        {
            let inh = match par[i] {
                Some(p) => qf[p],
                None => false,
            };
            let m = magnitude(q.data[i]);
            if inh {
                qf.push(true);
            } else if m >= 2 * t {
                qf.push(false);
            } else if m >= t {
                qf.push(false);
                symbols.push(if q.data[i] > 0 {
                    Symbol::Positive
                } else {
                    Symbol::Negative
                });
            } else if !b[i] {
                qf.push(true);
                symbols.push(Symbol::ZeroTree);
            } else {
                qf.push(false);
                symbols.push(Symbol::IsolatedZero);
            }
            i += 1;
        }
        let ghost mid = symbols@;
        let mut i: usize = 0;
        while i < n
            invariant
                i <= n,
                n == data.len(),
                data == q.data@,
                t <= 32768,
                t > 0,
                symbols@ == mid + enc_ref(data, t as int, i as nat),
            decreases n - i,
        {
            let m = magnitude(q.data[i]);
            if m >= 2 * t {
                symbols.push(if (m / t) % 2 == 1 {
                    Symbol::RefineOne
                } else {
                    Symbol::RefineZero
                });
            }
            i += 1;
        }
        proof {
            assert(symbols@ == start + enc_dom(data, par@, t as int, n as nat).1 + enc_ref(data, t as int, n as nat));
            assert(ezw_symbols(data, par@, t as nat) == enc_dom(data, par@, t as int, n as nat).1 + enc_ref(
                data,
                t as int,
                n as nat,
            ) + ezw_symbols(data, par@, (t / 2) as nat));
            assert(start + ezw_symbols(data, par@, t as nat) =~= symbols@ + ezw_symbols(data, par@, (t / 2) as nat));
        }
        t = t / 2;
    }
    proof {
        assert(symbols@ =~= ezw_symbols(data, par@, t0 as nat));
        if top > 0 {
            assert forall|j: int| 0 <= j < data.len() implies #[trigger] mag(data[j]) < 2 * t0 by {
                assert(mag(data[j]) <= top);
            }
        } else {
            assert forall|j: int| 0 <= j < data.len() implies #[trigger] mag(data[j]) == 0 by {
                assert(mag(data[j]) <= top);
            }
        }
        lemma_start_threshold(data, t0 as nat);
    }
    (t0 as u16, symbols)
}

/// What the decoder knows between steps: the magnitude bits decoded so far
/// and the sign of every coefficient, which coefficients of the current pass
/// lie in a zerotree, and its places in the two symbol streams.
pub struct ZState {
    pub r: Seq<u32>,
    pub neg: Seq<bool>,
    pub q: Seq<bool>,
    pub pos: int,
    pub rpos: int,
}

/// Symbol `pos` of a stream; an isolated zero past its end.
pub open spec fn sym_at(s: Seq<Symbol>, pos: int) -> Symbol {
    if 0 <= pos < s.len() {
        s[pos]
    } else {
        Symbol::IsolatedZero
    }
}

/// The place after reading at `pos`: one further, staying at the end once
/// there.
pub open spec fn advance(s: Seq<Symbol>, pos: int) -> int {
    if pos < s.len() {
        pos + 1
    } else {
        pos
    }
}

/// The decoder's dominant pass at threshold `t` over the first `k`
/// coefficients, mirroring the encoder's.
pub open spec fn dec_dom(dom: Seq<Symbol>, par: Seq<Option<usize>>, t: int, st: ZState, k: nat) -> ZState
    decreases k,
{
    if k == 0 {
        ZState { r: st.r, neg: st.neg, q: Seq::empty(), pos: st.pos, rpos: st.rpos }
    } else {
        let z = dec_dom(dom, par, t, st, (k - 1) as nat);
        let i = k - 1;
        if inherited(par, z.q, i) {
            ZState { r: z.r, neg: z.neg, q: z.q.push(true), pos: z.pos, rpos: z.rpos }
        } else if z.r[i] >= 2 * t {
            ZState { r: z.r, neg: z.neg, q: z.q.push(false), pos: z.pos, rpos: z.rpos }
        } else {
            let s = sym_at(dom, z.pos);
            if s == Symbol::Positive || s == Symbol::Negative {
                ZState {
                    r: z.r.update(i, t as u32),
                    neg: z.neg.update(i, s == Symbol::Negative),
                    q: z.q.push(false),
                    pos: advance(dom, z.pos),
                    rpos: z.rpos,
                }
            } else {
                ZState {
                    r: z.r,
                    neg: z.neg,
                    q: z.q.push(s == Symbol::ZeroTree),
                    pos: advance(dom, z.pos),
                    rpos: z.rpos,
                }
            }
        }
    }
}

/// The decoder's refinement pass at threshold `t` over the first `k`
/// coefficients: a significant coefficient from an earlier pass adds `t`
/// when its symbol is a one.
pub open spec fn dec_ref(rf: Seq<Symbol>, t: int, st: ZState, k: nat) -> ZState
    decreases k,
{
    if k == 0 {
        st
    } else {
        let z = dec_ref(rf, t, st, (k - 1) as nat);
        let i = k - 1;
        if z.r[i] >= 2 * t {
            let r = if sym_at(rf, z.rpos) == Symbol::RefineOne {
                z.r.update(i, (z.r[i] + t) as u32)
            } else {
                z.r
            };
            ZState { r, neg: z.neg, q: z.q, pos: z.pos, rpos: advance(rf, z.rpos) }
        } else {
            z
        }
    }
}

/// The decoder after the passes from threshold `t` down to 1.
pub open spec fn dec_passes(dom: Seq<Symbol>, rf: Seq<Symbol>, par: Seq<Option<usize>>, n: nat, t: nat, st: ZState) -> ZState
    decreases t,
{
    if t == 0 {
        st
    } else {
        dec_passes(dom, rf, par, n, t / 2, dec_ref(rf, t as int, dec_dom(dom, par, t as int, st, n), n))
    }
}

/// The decoder before the first pass: nothing known.
pub open spec fn dec_start(n: nat) -> ZState {
    ZState { r: Seq::new(n, |i: int| 0u32), neg: Seq::new(n, |i: int| false), q: Seq::empty(), pos: 0, rpos: 0 }
}

/// The coefficients a decoder state stands for: each magnitude with its sign.
pub open spec fn dec_values(st: ZState, n: nat) -> Seq<i16> {
    Seq::new(n, |i: int| (if st.neg[i] { -(st.r[i] as int) } else { st.r[i] as int }) as i16)
}

/// The coefficients rebuilt from the dominant and refinement streams of a
/// `w` by `h` channel with `levels` levels, starting at threshold `t0`.
pub open spec fn rebuilt(dom: Seq<Symbol>, rf: Seq<Symbol>, t0: nat, w: usize, h: usize, levels: u8) -> Seq<i16> {
    let n = (w * h) as nat;
    dec_values(dec_passes(dom, rf, parents(w, h, levels, n), n, t0, dec_start(n)), n)
}

/// Rebuilds the coefficients from the dominant and the refinement streams of
/// the zerotree coder and the start threshold, with the given shape and steps.
pub fn unbuild_split(
    dominant: &[Symbol],
    refinement: &[Symbol],
    t0: u16,
    w: usize,
    h: usize,
    levels: u8,
    scales: Vec<u32>,
) -> (q: Quantised)
    requires
        w * h <= usize::MAX,
        2 * w + 1 <= usize::MAX,
        2 * h + 1 <= usize::MAX,
        (levels as u32) < usize::BITS,
    ensures
        q.w == w,
        q.h == h,
        q.levels == levels,
        q.scales@ == scales@,
        q.data@ == rebuilt(dominant@, refinement@, t0 as nat, w, h, levels),
{
    let n = w * h;
    let par = parent_table(w, h, levels, n);
    proof {
        lemma_parents_ok(w, h, levels, n as nat);
    }
    let ghost dom = dominant@;
    let ghost rf = refinement@;
    let mut r: Vec<u32> = Vec::new();
    let mut neg: Vec<bool> = Vec::new();
    let mut i: usize = 0;
    while i < n
        invariant
            i <= n,
            r@ == Seq::new(i as nat, |k: int| 0u32),
            neg@ == Seq::new(i as nat, |k: int| false),
        decreases n - i,
    {
        r.push(0);
        neg.push(false);
        i += 1;
    }
    let mut pos: usize = 0;
    let mut rpos: usize = 0;
    let tt: u32 = t0 as u32;
    let mut t: u32 = tt;
    let ghost target = dec_passes(dom, rf, par@, n as nat, t0 as nat, dec_start(n as nat));
    let ghost mut gq: Seq<bool> = Seq::empty();
    proof {
        assert(r@ =~= dec_start(n as nat).r);
        assert(neg@ =~= dec_start(n as nat).neg);
    }
    while t > 0
        invariant
            t <= tt,
            tt <= 65535,
            r@.len() == n,
            neg@.len() == n,
            par@ == parents(w, h, levels, n as nat),
            parents_ok(par@),
            par@.len() == n,
            pos <= dom.len(),
            rpos <= rf.len(),
            dom == dominant@,
            rf == refinement@,
            forall|k: int| 0 <= k < n ==> #[trigger] r@[k] + 2 * t <= 2 * tt,
            dec_passes(dom, rf, par@, n as nat, t as nat, ZState { r: r@, neg: neg@, q: gq, pos: pos as int, rpos: rpos as int }) == target,
        decreases t,
    {
        let ghost st0 = ZState { r: r@, neg: neg@, q: gq, pos: pos as int, rpos: rpos as int };
        let mut qf: Vec<bool> = Vec::new();
        let mut i: usize = 0;
        while i < n
            invariant
                i <= n,
                0 < t <= tt,
                tt <= 65535,
                r@.len() == n,
                neg@.len() == n,
                par@.len() == n,
                parents_ok(par@),
                pos <= dom.len(),
                rpos <= rf.len(),
                dom == dominant@,
                rf == refinement@,
                forall|k: int| 0 <= k < n ==> #[trigger] r@[k] + t <= 2 * tt,
                forall|k: int| 0 <= k < n ==> #[trigger] r@[k] >= 2 * t ==> r@[k] + 2 * t <= 2 * tt,
                dec_dom(dom, par@, t as int, st0, i as nat) == (ZState { r: r@, neg: neg@, q: qf@, pos: pos as int, rpos: rpos as int }),
                qf@.len() == i,
            decreases n - i,
        {
            let inh = match par[i] {
                Some(p) => qf[p],
                None => false,
            };
            if inh {
                qf.push(true);
            } else if r[i] >= 2 * t {
                qf.push(false);
            } else {
                let s = if pos < dominant.len() {
                    let s = dominant[pos];
                    pos = pos + 1;
                    s
                } else {
                    Symbol::IsolatedZero
                };
                match s {
                    Symbol::Positive => {
                        r.set(i, t);
                        neg.set(i, false);
                        qf.push(false);
                    },
                    Symbol::Negative => {
                        r.set(i, t);
                        neg.set(i, true);
                        qf.push(false);
                    },
                    Symbol::ZeroTree => {
                        qf.push(true);
                    },
                    _ => {
                        qf.push(false);
                    },
                }
            }
            proof {
                assert(dec_dom(dom, par@, t as int, st0, (i + 1) as nat) =~~= (ZState { r: r@, neg: neg@, q: qf@, pos: pos as int, rpos: rpos as int }));
            }
            i += 1;
        }
        let ghost st1 = ZState { r: r@, neg: neg@, q: qf@, pos: pos as int, rpos: rpos as int };
        let mut i: usize = 0;
        while i < n
            invariant
                i <= n,
                0 < t <= tt,
                tt <= 65535,
                r@.len() == n,
                pos <= dom.len(),
                rpos <= rf.len(),
                dom == dominant@,
                rf == refinement@,
                forall|k: int| 0 <= k < i ==> #[trigger] r@[k] + t <= 2 * tt,
                forall|k: int| i <= k < n ==> #[trigger] r@[k] + t <= 2 * tt,
                forall|k: int| i <= k < n ==> #[trigger] r@[k] >= 2 * t ==> r@[k] + 2 * t <= 2 * tt,
                dec_ref(rf, t as int, st1, i as nat) == (ZState { r: r@, neg: neg@, q: qf@, pos: pos as int, rpos: rpos as int }),
            decreases n - i,
        {
            if r[i] >= 2 * t {
                let mut one = false;
                if rpos < refinement.len() {
                    one = refinement[rpos] == Symbol::RefineOne;
                    rpos = rpos + 1;
                }
                if one {
                    let v = r[i];
                    r.set(i, v + t);
                }
            }
            proof {
                assert(dec_ref(rf, t as int, st1, (i + 1) as nat) =~~= (ZState { r: r@, neg: neg@, q: qf@, pos: pos as int, rpos: rpos as int }));
            }
            i += 1;
        }
        proof {
            gq = qf@;
        }
        t = t / 2;
    }
    let mut data: Vec<i16> = Vec::new();
    let mut i: usize = 0;
    while i < n
        invariant
            i <= n,
            r@.len() == n,
            neg@.len() == n,
            tt <= 65535,
            forall|k: int| 0 <= k < n ==> #[trigger] r@[k] <= 2 * tt,
            data@ == Seq::new(i as nat, |k: int| (if neg@[k] { -(r@[k] as int) } else { r@[k] as int }) as i16),
        decreases n - i,
    {
        let v: i16 = if neg[i] {
            (0i32 - r[i] as i32) as i16
        } else {
            r[i] as i16
        };
        data.push(v);
        i += 1;
        assert(data@ =~= Seq::new(i as nat, |k: int| (if neg@[k] { -(r@[k] as int) } else { r@[k] as int }) as i16));
    }
    proof {
        assert(target == ZState { r: r@, neg: neg@, q: gq, pos: pos as int, rpos: rpos as int });
        assert(data@ =~= dec_values(target, n as nat));
    }
    Quantised { w, h, levels, scales, data }
}

} // verus!
