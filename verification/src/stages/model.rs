//! Adaptive frequency models for the arithmetic coder.
//!
//! A model over `n` symbols is a table of `n + 1` cumulative counts: symbol
//! `s` owns the slice `[cum[s], cum[s + 1])` of `[0, total)`. Every coded
//! symbol bumps its own count; when the total passes the model's cap the
//! counts are roughly halved, so recent statistics weigh more.
use vstd::prelude::*;
use vstd::arithmetic::power2::{pow2, lemma2_to64, lemma_pow2_pos, lemma_pow2_unfold};

verus! {

/// Nominal ceiling on the total count of a model.
pub const MAX_TOTAL: u32 = 65536;

/// Largest total count with which the coder's interval, which is
/// always wider than a quarter of the 32-bit range, can still be split so that
/// every symbol keeps a non-empty share.
pub const MODEL_LIMIT: u32 = 0x4000_0000;

/// Offset basis of the 64-bit FNV-1a hash.
pub const FNV_OFFSET: u64 = 0xcbf2_9ce4_8422_2325;

/// Prime of the 64-bit FNV-1a hash.
pub const FNV_PRIME: u64 = 0x0000_0100_0000_01b3;

/// Every pair of entries is in strictly increasing order.
pub open spec fn strictly_increasing(cum: Seq<u32>) -> bool {
    forall|i: int, j: int| 0 <= i < j < cum.len() ==> cum[i] < cum[j]
}

/// A cumulative table the coder can work with: it starts at zero, every
/// symbol has a positive count, and the total stays within `MODEL_LIMIT`.
pub open spec fn cum_wf(cum: Seq<u32>, cap: u32) -> bool {
    &&& 1 <= cum.len() <= MODEL_LIMIT
    &&& cum[0] == 0
    &&& strictly_increasing(cum)
    &&& cum.last() <= MODEL_LIMIT
}

/// Coding `k` more symbols keeps the total within `MODEL_LIMIT`: either the
/// cap holds it there, or the total has room for `k` more counts.
pub open spec fn within_budget(cum: Seq<u32>, cap: u32, k: nat) -> bool {
    cap <= MODEL_LIMIT || cum.last() + k <= MODEL_LIMIT
}

/// The table after one more occurrence of symbol `s`.
pub open spec fn incremented(cum: Seq<u32>, s: int) -> Seq<u32> {
    Seq::new(cum.len(), |i: int| if i > s { (cum[i] + 1) as u32 } else { cum[i] })
}

/// `f / 2`, rounded up.
pub open spec fn ceil_half(f: int) -> int {
    (f + 1) / 2
}

/// Entry `i` of the halved table: the halved entry before it plus half (rounded
/// up) of the distance from that halved entry to the old entry `i`.
pub open spec fn halved_at(cum: Seq<u32>, i: int) -> int
    decreases i,
{
    if i <= 0 {
        cum[0] as int
    } else {
        halved_at(cum, i - 1) + ceil_half(cum[i] - halved_at(cum, i - 1))
    }
}

/// The table with its counts roughly halved.
pub open spec fn halved(cum: Seq<u32>) -> Seq<u32> {
    Seq::new(cum.len(), |i: int| halved_at(cum, i) as u32)
}

/// The table after coding symbol `s` with cap `cap`.
pub open spec fn updated(cum: Seq<u32>, cap: u32, s: int) -> Seq<u32> {
    let inc = incremented(cum, s);
    if inc.last() > cap {
        halved(inc)
    } else {
        inc
    }
}

/// 64-bit FNV-1a hash of the entries of a table.
pub open spec fn fnv(cum: Seq<u32>) -> u64
    decreases cum.len(),
{
    if cum.len() == 0 {
        FNV_OFFSET
    } else {
        (fnv(cum.drop_last()) ^ (cum.last() as u64)).wrapping_mul(FNV_PRIME)
    }
}

/// Multiplying by the FNV prime modulo 2^64 loses nothing: the prime is odd,
/// so equal products come from equal factors.
proof fn lemma_fnv_mul_injective(x: u64, y: u64)
    requires
        x.wrapping_mul(FNV_PRIME) == y.wrapping_mul(FNV_PRIME),
    ensures
        x == y,
{
    let m: int = 0x1_0000_0000_0000_0000;
    let p: int = FNV_PRIME as int;
    // the inverse of the prime modulo 2^64
    let q: int = 0xce96_5057_aff6_957b;
    let kk: int = 887285111055;
    assert(p * q == 1 + kk * m);
    assert forall|z: u64| #[trigger] z.wrapping_mul(FNV_PRIME) as int * q % m == z as int by {
        let zi = z as int;
        vstd::arithmetic::div_mod::lemma_mul_mod_noop_left(zi * p, q, m);
        assert(zi * p * q == m * (zi * kk) + zi) by (nonlinear_arith)
            requires
                p * q == 1 + kk * m,
        ;
        vstd::arithmetic::div_mod::lemma_mod_multiples_vanish(zi * kk, zi, m);
        vstd::arithmetic::div_mod::lemma_small_mod(z as nat, m as nat);
        assert(z.wrapping_mul(FNV_PRIME) as int == (zi * p) % m);
    }
    assert(x.wrapping_mul(FNV_PRIME) as int * q % m == x as int);
    assert(y.wrapping_mul(FNV_PRIME) as int * q % m == y as int);
}

/// The fingerprint takes in every entry whole: two tables of the same length
/// that differ in exactly one entry have different fingerprints.
pub proof fn lemma_fingerprint_sees_every_entry(a: Seq<u32>, b: Seq<u32>, j: int)
    requires
        a.len() == b.len(),
        0 <= j < a.len(),
        a[j] != b[j],
        forall|i: int| 0 <= i < a.len() && i != j ==> a[i] == b[i],
    ensures
        fnv(a) != fnv(b),
    decreases a.len(),
{
    let n = a.len() - 1;
    let (ha, hb) = (fnv(a.drop_last()), fnv(b.drop_last()));
    let (ea, eb) = (a.last() as u64, b.last() as u64);
    if j == n {
        assert(a.drop_last() =~= b.drop_last());
        assert(ea != eb);
        assert(ha ^ ea != ha ^ eb) by (bit_vector)
            requires
                ea != eb,
        ;
        if fnv(a) == fnv(b) {
            lemma_fnv_mul_injective(ha ^ ea, hb ^ eb);
        }
    } else {
        lemma_fingerprint_sees_every_entry(a.drop_last(), b.drop_last(), j);
        assert(ea == eb);
        assert(ha ^ ea != hb ^ ea) by (bit_vector)
            requires
                ha != hb,
        ;
        if fnv(a) == fnv(b) {
            lemma_fnv_mul_injective(ha ^ ea, hb ^ eb);
        }
    }
}

/// The symbol whose slice holds `target`: `cum[s] <= target < cum[s + 1]`.
pub open spec fn owns(cum: Seq<u32>, s: int, target: int) -> bool {
    &&& 0 <= s
    &&& s + 1 < cum.len()
    &&& cum[s] <= target < cum[s + 1]
}

/// On a strictly increasing table at most one symbol owns a value.
pub proof fn lemma_owner_unique(cum: Seq<u32>, s: int, t: int, target: int)
    requires
        strictly_increasing(cum),
        owns(cum, s, target),
        owns(cum, t, target),
    ensures
        s == t,
{
    if s < t {
        assert(cum[s + 1] <= cum[t]) by {
            if s + 1 < t {
                assert(cum[s + 1] < cum[t]);
            }
        }
    } else if t < s {
        assert(cum[t + 1] <= cum[s]) by {
            if t + 1 < s {
                assert(cum[t + 1] < cum[s]);
            }
        }
    }
}

proof fn lemma_halved_bounds(cum: Seq<u32>, i: int)
    requires
        cum.len() >= 1,
        cum[0] == 0,
        strictly_increasing(cum),
        0 <= i < cum.len(),
    ensures
        0 <= halved_at(cum, i) <= cum[i],
        halved_at(cum, i) == cum[i] ==> cum[i] == i,
        i >= 1 ==> halved_at(cum, i - 1) < halved_at(cum, i),
    decreases i,
{
    if i > 0 {
        lemma_halved_bounds(cum, i - 1);
        assert(cum[i - 1] < cum[i]);
    }
}

proof fn lemma_halved_increasing(cum: Seq<u32>, i: int, j: int)
    requires
        cum.len() >= 1,
        cum[0] == 0,
        strictly_increasing(cum),
        0 <= i < j < cum.len(),
    ensures
        halved_at(cum, i) < halved_at(cum, j),
    decreases j - i,
{
    lemma_halved_bounds(cum, j);
    if i < j - 1 {
        lemma_halved_increasing(cum, i, j - 1);
    }
}

/// The old entries up to `i`, entry `j` weighing `2^j`.
pub open spec fn weighted(cum: Seq<u32>, i: int) -> int
    decreases i + 1,
{
    if i < 0 {
        0
    } else {
        weighted(cum, i - 1) + cum[i] * pow2(i as nat)
    }
}

/// `x / d` rounded up is `r` when `x` lies in `(d * (r - 1), d * r]`.
proof fn lemma_ceil_div(x: int, d: int, r: int)
    requires
        d > 0,
        d * (r - 1) < x <= d * r,
    ensures
        (x + d - 1) / d == r,
{
    let y = x + d - 1;
    vstd::arithmetic::div_mod::lemma_fundamental_div_mod(y, d);
    let qq = y / d;
    let rm = y % d;
    assert(qq == r) by (nonlinear_arith)
        requires
            y == d * qq + rm,
            y == x + d - 1,
            0 <= rm < d,
            d * (r - 1) < x <= d * r,
            d > 0,
    ;
}

/// What halving does to a table: each new entry is the average of the old
/// entry and the new entry before it, rounded up; unrolled, new entry `i` is
/// the weighted average of the old entries up to `i`, each old entry weighing
/// twice the one before it, rounded up once. For example `[0, 16384, 16385]`
/// halves to `[0, 8192, 12289]`.
pub proof fn lemma_halving(cum: Seq<u32>, i: int)
    requires
        cum.len() >= 1,
        cum[0] == 0,
        strictly_increasing(cum),
        0 <= i < cum.len(),
    ensures
        halved(cum).len() == cum.len(),
        halved(cum)[0] == 0,
        i >= 1 ==> cum[i] + halved(cum)[i - 1] <= 2 * halved(cum)[i] <= cum[i] + halved(cum)[i - 1] + 1,
        weighted(cum, i) >= 0,
        halved(cum)[i] == (weighted(cum, i) + pow2((i + 1) as nat) - 1) / (pow2((i + 1) as nat) as int),
    decreases i,
{
    lemma_halved_bounds(cum, i);
    lemma_halved_bounds(cum, 0);
    let m = pow2(i as nat) as int;
    lemma_pow2_pos(i as nat);
    lemma_pow2_unfold((i + 1) as nat);
    assert(pow2((i + 1) as nat) == 2 * m);
    if i == 0 {
        lemma2_to64();
        assert(weighted(cum, 0) == 0);
        assert(halved(cum)[0] == 0);
    } else {
        lemma_halving(cum, i - 1);
        lemma_halved_bounds(cum, i - 1);
        let q = halved_at(cum, i - 1);
        let c = cum[i] as int;
        let w = weighted(cum, i - 1);
        let r = halved_at(cum, i);
        assert(halved(cum)[i - 1] == q && halved(cum)[i] == r);
        assert(r == (c + q + 1) / 2);
        assert(2 * (r - 1) < c + q <= 2 * r);
        // q is w / m rounded up
        assert(m * (q - 1) < w <= m * q) by {
            vstd::arithmetic::div_mod::lemma_fundamental_div_mod(w + m - 1, m);
            assert(q == (w + m - 1) / m);
            let rm = (w + m - 1) % m;
            assert(m * (q - 1) < w <= m * q) by (nonlinear_arith)
                requires
                    w + m - 1 == m * q + rm,
                    0 <= rm < m,
            ;
        }
        assert(weighted(cum, i) == w + c * m);
        assert(2 * m * (r - 1) < w + c * m <= 2 * m * r) by (nonlinear_arith)
            requires
                m * (q - 1) < w <= m * q,
                2 * (r - 1) < c + q <= 2 * r,
                m > 0,
        ;
        assert(w + c * m >= 0) by (nonlinear_arith)
            requires
                w >= 0,
                c >= 0,
                m > 0,
        ;
        lemma_ceil_div(w + c * m, 2 * m, r);
    }
}

/// Coding a symbol keeps a table that the coder can work with.
pub proof fn lemma_updated_wf(cum: Seq<u32>, cap: u32, s: int)
    requires
        cum_wf(cum, cap),
        within_budget(cum, cap, 1),
        0 <= s < cum.len() - 1,
    ensures
        cum_wf(updated(cum, cap, s), cap),
        updated(cum, cap, s).len() == cum.len(),
        cap > MODEL_LIMIT ==> updated(cum, cap, s).last() == cum.last() + 1,
        cum.last() <= cap && cum.len() <= cap + 1 ==> updated(cum, cap, s).last() <= cap,
{
    let inc = incremented(cum, s);
    assert forall|i: int| 0 <= i < cum.len() implies cum[i] <= cum.last() by {
        if i < cum.len() - 1 {
            assert(cum[i] < cum[cum.len() - 1]);
        }
    }
    assert(strictly_increasing(inc)) by {
        assert forall|i: int, j: int| 0 <= i < j < inc.len() implies inc[i] < inc[j] by {
            assert(cum[i] < cum[j]);
        }
    }
    if inc.last() > cap {
        let h = halved(inc);
        assert(strictly_increasing(h)) by {
            assert forall|i: int, j: int| 0 <= i < j < h.len() implies h[i] < h[j] by {
                lemma_halved_increasing(inc, i, j);
                lemma_halved_bounds(inc, j);
                lemma_halved_bounds(inc, i);
            }
        }
        let n = inc.len() - 1;
        lemma_halved_bounds(inc, n);
        lemma_halved_bounds(inc, 0);
        assert(h.last() <= MODEL_LIMIT);
        if cum.last() <= cap && cum.len() <= cap + 1 {
            lemma_halved_bounds(inc, n - 1);
            assert(inc[n - 1] < inc[n]);
            assert(inc[n] == cap + 1);
            assert(inc[n] - halved_at(inc, n - 1) >= 2);
            assert(halved_at(inc, n) <= inc[n] - 1);
        }
    }
}

/// Cumulative frequency table of an adaptive model, with the cap above which
/// the counts are halved.
#[derive(Debug, Clone)]
pub struct AdaptiveDist {
    cum: Vec<u32>,
    cap: u32,
}

impl AdaptiveDist {
    /// The cumulative counts, `cum[0] = 0` up to the total.
    pub closed spec fn cum_seq(&self) -> Seq<u32> {
        self.cum@
    }

    /// The cap above which the counts are halved.
    pub closed spec fn cap_value(&self) -> u32 {
        self.cap
    }

    /// The model can be used by the coder.
    pub open spec fn wf(&self) -> bool {
        cum_wf(self.cum_seq(), self.cap_value())
    }

    /// A model over `n` symbols with one count each (the symbols `0..=n` taken
    /// as `u32`), halving when the total passes `cap`.
    pub fn new(n: usize, cap: u32) -> (d: Self)
        ensures
            d.cum_seq() == Seq::new((n as u32) as nat + 1, |i: int| i as u32),
            d.cap_value() == cap,
    {
        let top: u32 = n as u32;
        let mut cum: Vec<u32> = Vec::new();
        let mut i: u32 = 0;
        while i < top
            invariant
                i <= top,
                cum@ == Seq::new(i as nat, |k: int| k as u32),
            decreases top - i,
        {
            cum.push(i);
            i += 1;
        }
        cum.push(top);
        assert(cum@ =~= Seq::new((n as u32) as nat + 1, |k: int| k as u32));
        AdaptiveDist { cum, cap }
    }

    /// Cumulative count below symbol `i`.
    pub(crate) fn cum(&self, i: usize) -> (c: u64)
        requires
            i < self.cum_seq().len(),
        ensures
            c == self.cum_seq()[i as int],
    {
        self.cum[i] as u64
    }

    /// Total count of the model.
    pub(crate) fn total(&self) -> (t: u64)
        requires
            self.cum_seq().len() >= 1,
        ensures
            t == self.cum_seq().last(),
    {
        self.cum[self.cum.len() - 1] as u64
    }

    /// The symbol whose slice of the cumulative range holds `target`.
    pub(crate) fn lookup(&self, target: u64) -> (s: usize)
        requires
            self.wf(),
            target < self.cum_seq().last(),
        ensures
            owns(self.cum_seq(), s as int, target as int),
    {
        let len = self.cum.len();
        let mut i: usize = 1;
        while (self.cum[i] as u64) <= target
            invariant
                cum_wf(self.cum@, self.cap),
                len == self.cum@.len(),
                1 <= i < len,
                self.cum@[i - 1] <= target,
                target < self.cum@.last(),
            decreases len - i,
        {
            if i + 1 == len {
                assert(false);
            }
            i += 1;
        }
        i - 1
    }

    /// Roughly halves every count.
    fn halve(&mut self)
        requires
            old(self).wf() || (old(self).cum_seq().len() >= 1 && old(self).cum_seq()[0] == 0
                && strictly_increasing(old(self).cum_seq())),
        ensures
            final(self).cum_seq() == halved(old(self).cum_seq()),
            final(self).cap_value() == old(self).cap_value(),
    {
        let ghost c = self.cum@;
        let len = self.cum.len();
        let mut total: u32 = 0;
        let mut i: usize = 1;
        proof {
            lemma_halved_bounds(c, 0);
        }
        while i < len
            invariant
                c.len() >= 1,
                c[0] == 0,
                strictly_increasing(c),
                len == c.len(),
                self.cum@.len() == len,
                1 <= i <= len,
                total == halved_at(c, i - 1),
                forall|k: int| 0 <= k < i ==> self.cum@[k] == halved_at(c, k),
                forall|k: int| i <= k < len ==> self.cum@[k] == c[k],
                self.cap == old(self).cap,
            decreases len - i,
        {
            proof {
                lemma_halved_bounds(c, i as int);
                lemma_halved_bounds(c, i - 1);
            }
            let f: u32 = self.cum[i] - self.cum[i - 1];
            total = total + (f / 2 + f % 2);
            self.cum.set(i, total);
            i += 1;
        }
        assert(self.cum@ =~= halved(c));
    }

    /// Counts one more occurrence of symbol `s`, halving when the total
    /// passes the cap.
    pub(crate) fn update(&mut self, s: usize)
        requires
            old(self).wf(),
            within_budget(old(self).cum_seq(), old(self).cap_value(), 1),
            s + 1 < old(self).cum_seq().len(),
        ensures
            final(self).cum_seq() == updated(old(self).cum_seq(), old(self).cap_value(), s as int),
            final(self).cap_value() == old(self).cap_value(),
            final(self).wf(),
            old(self).cap_value() > MODEL_LIMIT ==> final(self).cum_seq().last() == old(self).cum_seq().last() + 1,
            old(self).cum_seq().last() <= old(self).cap_value() && old(self).cum_seq().len()
                <= old(self).cap_value() + 1 ==> final(self).cum_seq().last() <= final(self).cap_value(),
    {
        let ghost c = self.cum@;
        let len = self.cum.len();
        proof {
            lemma_updated_wf(c, self.cap, s as int);
            assert forall|k: int| 0 <= k < len implies c[k] <= c.last() by {
                if k < len - 1 {
                    assert(c[k] < c[len - 1]);
                }
            }
        }
        let mut i: usize = s + 1;
        while i < len
            invariant
                cum_wf(c, self.cap),
                within_budget(c, self.cap, 1),
                self.cap == old(self).cap,
                c == old(self).cum@,
                forall|k: int| 0 <= k < len ==> c[k] <= c.last(),
                len == c.len(),
                self.cum@.len() == len,
                s + 1 <= i <= len,
                forall|k: int| 0 <= k < i ==> self.cum@[k] == incremented(c, s as int)[k],
                forall|k: int| i <= k < len ==> self.cum@[k] == c[k],
            decreases len - i,
        {
            let v = self.cum[i];
            assert(v <= MODEL_LIMIT) by {
                assert(c[i as int] <= c.last());
            }
            self.cum.set(i, v + 1);
            i += 1;
        }
        assert(self.cum@ =~= incremented(c, s as int));
        if self.cum[len - 1] > self.cap {
            self.halve();
        }
    }

    /// 64-bit FNV-1a hash of the cumulative counts.
    pub(crate) fn fingerprint(&self) -> (h: u64)
        ensures
            h == fnv(self.cum_seq()),
    {
        let mut h: u64 = FNV_OFFSET;
        let mut i: usize = 0;
        while i < self.cum.len()
            invariant
                i <= self.cum@.len(),
                h == fnv(self.cum@.take(i as int)),
            decreases self.cum@.len() - i,
        {
            assert(self.cum@.take(i + 1).drop_last() =~= self.cum@.take(i as int));
            h = (h ^ self.cum[i] as u64).wrapping_mul(FNV_PRIME);
            i += 1;
        }
        assert(self.cum@.take(i as int) =~= self.cum@);
        h
    }
}

} // verus!
