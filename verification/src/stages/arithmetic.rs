//! Adaptive arithmetic coding (Witten, Neal and Cleary) over 32-bit integer
//! intervals, and the container that carries the dominant and refinement
//! symbol streams of the zerotree coder.
use vstd::prelude::*;
use crate::stages::bitio::{
    bit_at, lemma_packs_is_pack_bits, pack_bits, packs,
    put_varint, take_varint, varint_bytes, varint_len, varint_ok, varint_size, varint_value, BitReader, BitWriter,
};
use crate::Symbol;
pub use crate::stages::model::{AdaptiveDist, MAX_TOTAL};
use crate::stages::model::{
    cum_wf, fnv, lemma_owner_unique, lemma_updated_wf, owns, updated, within_budget, MODEL_LIMIT,
};

verus! {

/// Half of the 32-bit code range.
pub const HALF: u32 = 0x8000_0000;

/// A quarter of the 32-bit code range.
pub const QUARTER: u32 = 0x4000_0000;

/// Three quarters of the 32-bit code range.
pub const THREE_QUARTERS: u32 = 0xC000_0000;

// -------------------- Interval arithmetic --------------------

/// The sub-interval of `[low, high]` that the slice `[cl, ch)` of a total
/// `total` owns.
pub open spec fn narrowed(low: u32, high: u32, cl: int, ch: int, total: int) -> (u32, u32) {
    let range = high - low + 1;
    ((low + range * cl / total) as u32, (low + range * ch / total - 1) as u32)
}

/// The interval after rescaling: it straddles the midpoint and is wider than
/// a quarter of the range.
pub open spec fn settled(low: u32, high: u32) -> bool {
    &&& low < HALF <= high
    &&& (low < QUARTER || high >= THREE_QUARTERS)
}

/// Scaling a slice `[cl, ch)` of `[0, t)` to a range `r` at least as wide as
/// `t` gives a non-empty slice of `[0, r)`.
pub proof fn lemma_narrow_bounds(r: int, cl: int, ch: int, t: int)
    requires
        0 < t <= r,
        0 <= cl < ch <= t,
    ensures
        0 <= r * cl / t,
        r * cl / t + 1 <= r * ch / t,
        r * ch / t <= r,
{
    assert(0 <= r * cl) by (nonlinear_arith)
        requires
            0 < r,
            0 <= cl,
    ;
    assert(r * cl + t <= r * ch) by (nonlinear_arith)
        requires
            0 < t <= r,
            0 <= cl < ch,
    ;
    assert(r * ch <= r * t) by (nonlinear_arith)
        requires
            0 < r,
            ch <= t,
    ;
    assert(0 <= r * cl / t) by (nonlinear_arith)
        requires
            0 <= r * cl,
            0 < t,
    ;
    assert(r * cl / t + 1 <= r * ch / t) by (nonlinear_arith)
        requires
            r * cl + t <= r * ch,
            0 < t,
    ;
    assert(r * ch / t <= r) by (nonlinear_arith)
        requires
            r * ch <= r * t,
            0 < t,
    ;
}

/// Doubling an interval that lies in the lower half of the range.
proof fn lemma_double(low: u32, high: u32)
    by (bit_vector)
    requires
        low <= high < 0x8000_0000u32,
    ensures
        low << 1u32 == 2 * low,
        (high << 1u32) | 1u32 == 2 * high + 1,
{
}

fn narrow(low: &mut u32, high: &mut u32, cum_low: u64, cum_high: u64, total: u64)
    requires
        *old(low) <= *old(high),
        0 < total <= *old(high) - *old(low) + 1,
        total <= u32::MAX,
        cum_low < cum_high <= total,
    ensures
        (*final(low), *final(high)) == narrowed(*old(low), *old(high), cum_low as int, cum_high as int, total as int),
        *old(low) <= *final(low) <= *final(high) <= *old(high),
{
    let base = *low as u64;
    let range = (*high - *low) as u64 + 1;
    proof {
        lemma_narrow_bounds(range as int, cum_low as int, cum_high as int, total as int);
        assert(range * cum_low <= range * cum_high <= 0x1_0000_0000 * total) by (nonlinear_arith)
            requires
                range <= 0x1_0000_0000,
                cum_low <= cum_high <= total,
        ;
        assert(0x1_0000_0000 * total <= 0x1_0000_0000 * 0xffff_ffffint) by (nonlinear_arith)
            requires
                total <= 0xffff_ffffint,
        ;
    }
    *high = (base + range * cum_high / total - 1) as u32;
    *low = (base + range * cum_low / total) as u32;
}

// -------------------- Encoder --------------------

/// The state of the encoder between symbols: the current interval, the
/// number of opposite bits owed to the next decided bit, and the bits emitted.
pub struct EncState {
    pub low: u32,
    pub high: u32,
    pub pending: nat,
    pub bits: Seq<bool>,
}

/// `bits`, then `bit`, then `pending` copies of the opposite bit.
pub open spec fn emitted(bits: Seq<bool>, pending: nat, bit: bool) -> Seq<bool> {
    bits.push(bit) + Seq::new(pending, |i: int| !bit)
}

/// The encoder's initial state: the whole range, nothing emitted.
pub open spec fn enc_init() -> EncState {
    EncState { low: 0, high: 0xFFFF_FFFF, pending: 0, bits: Seq::empty() }
}

/// Rescales the interval until it straddles the midpoint and is wider than a
/// quarter, emitting every bit that is decided on the way.
pub open spec fn enc_scale(st: EncState) -> EncState
    decreases 0xFFFF_FFFFint - (st.high - st.low),
{
    if st.low > st.high {
        st
    } else if st.high < HALF {
        enc_scale(
            EncState {
                low: (2 * st.low) as u32,
                high: (2 * st.high + 1) as u32,
                pending: 0,
                bits: emitted(st.bits, st.pending, false),
            },
        )
    } else if st.low >= HALF {
        enc_scale(
            EncState {
                low: (2 * (st.low - HALF)) as u32,
                high: (2 * (st.high - HALF) + 1) as u32,
                pending: 0,
                bits: emitted(st.bits, st.pending, true),
            },
        )
    } else if st.low >= QUARTER && st.high < THREE_QUARTERS {
        enc_scale(
            EncState {
                low: (2 * (st.low - QUARTER)) as u32,
                high: (2 * (st.high - QUARTER) + 1) as u32,
                pending: st.pending + 1,
                bits: st.bits,
            },
        )
    } else {
        st
    }
}

/// Narrows the encoder's interval to the slice of symbol `s`.
pub open spec fn enc_narrow(st: EncState, cum: Seq<u32>, s: int) -> EncState {
    let (l, h) = narrowed(st.low, st.high, cum[s] as int, cum[s + 1] as int, cum.last() as int);
    EncState { low: l, high: h, pending: st.pending, bits: st.bits }
}

/// The model after coding `syms`, starting from `cum0`.
pub open spec fn model_after(cum0: Seq<u32>, cap: u32, syms: Seq<usize>) -> Seq<u32>
    decreases syms.len(),
{
    if syms.len() == 0 {
        cum0
    } else {
        updated(model_after(cum0, cap, syms.drop_last()), cap, syms.last() as int)
    }
}

/// The encoder's state after coding `syms`, starting from the model `cum0`.
pub open spec fn enc_after(cum0: Seq<u32>, cap: u32, syms: Seq<usize>) -> EncState
    decreases syms.len(),
{
    if syms.len() == 0 {
        enc_init()
    } else {
        enc_scale(
            enc_narrow(
                enc_after(cum0, cap, syms.drop_last()),
                model_after(cum0, cap, syms.drop_last()),
                syms.last() as int,
            ),
        )
    }
}

/// The closing bits: one more pending bit, and a decided bit that pins the
/// code value inside the final interval.
pub open spec fn enc_flush(st: EncState) -> Seq<bool> {
    emitted(st.bits, st.pending + 1, st.low >= QUARTER)
}

/// The code bits of `syms` under the adaptive model that starts at `cum0`.
pub open spec fn encoded_bits(cum0: Seq<u32>, cap: u32, syms: Seq<usize>) -> Seq<bool> {
    enc_flush(enc_after(cum0, cap, syms))
}

/// The fingerprints of the model after each coded symbol.
pub open spec fn fingerprints(cum0: Seq<u32>, cap: u32, syms: Seq<usize>) -> Seq<u64> {
    Seq::new(syms.len(), |k: int| fnv(model_after(cum0, cap, syms.take(k + 1))))
}

/// Every symbol has a slice in a model with `n + 1` cumulative entries.
pub open spec fn symbols_in_range(syms: Seq<usize>, len: nat) -> bool {
    forall|i: int| 0 <= i < syms.len() ==> syms[i] + 1 < len
}

/// Longest symbol sequence the coder takes: the count of owed bits is a
/// 64-bit counter, and one symbol adds at most 32 to it.
pub const MAX_SYMBOLS: u64 = 0x0100_0000_0000_0000;

pub proof fn lemma_model_after_wf(cum0: Seq<u32>, cap: u32, syms: Seq<usize>)
    requires
        cum_wf(cum0, cap),
        within_budget(cum0, cap, syms.len()),
        symbols_in_range(syms, cum0.len()),
    ensures
        cum_wf(model_after(cum0, cap, syms), cap),
        model_after(cum0, cap, syms).len() == cum0.len(),
        cap > MODEL_LIMIT ==> model_after(cum0, cap, syms).last() == cum0.last() + syms.len(),
    decreases syms.len(),
{
    if syms.len() > 0 {
        lemma_model_after_wf(cum0, cap, syms.drop_last());
        lemma_updated_wf(model_after(cum0, cap, syms.drop_last()), cap, syms.last() as int);
    }
}

fn emit(out: &mut BitWriter, pending: &mut u64, bit: bool)
    requires
        old(out).wf(),
    ensures
        final(out).wf(),
        final(out).written() == emitted(old(out).written(), *old(pending) as nat, bit),
        *final(pending) == 0,
{
    let ghost start = out.written();
    out.put(bit);
    let mut i: u64 = 0;
    while i < *pending
        invariant
            out.wf(),
            i <= *pending,
            out.written() == start.push(bit) + Seq::new(i as nat, |k: int| !bit),
        decreases *pending - i,
    {
        out.put(!bit);
        i += 1;
        assert(out.written() =~= start.push(bit) + Seq::new(i as nat, |k: int| !bit));
    }
    assert(out.written() =~= emitted(start, *pending as nat, bit));
    *pending = 0;
}

/// Arithmetic-codes `symbols` with the adaptive `model`, updating the model
/// after each symbol. When `trace` is given, the fingerprint of the model after
/// each symbol is appended to it.
pub fn encode_adaptive(symbols: &[usize], model: &mut AdaptiveDist, trace: Option<&mut Vec<u64>>) -> (out: Vec<u8>)
    requires
        old(model).wf(),
        within_budget(old(model).cum_seq(), old(model).cap_value(), symbols@.len()),
        symbols_in_range(symbols@, old(model).cum_seq().len()),
        symbols@.len() <= MAX_SYMBOLS,
    ensures
        packs(out@, encoded_bits(old(model).cum_seq(), old(model).cap_value(), symbols@)),
        final(model).cum_seq() == model_after(old(model).cum_seq(), old(model).cap_value(), symbols@),
        final(model).cap_value() == old(model).cap_value(),
        final(model).wf(),
        trace matches Some(t) ==> final(t)@ == t@ + fingerprints(
            old(model).cum_seq(),
            old(model).cap_value(),
            symbols@,
        ),
{
    let mut trace = trace;
    let ghost orig_trace = trace;
    let ghost cum0 = model.cum_seq();
    let ghost cap = model.cap_value();
    let mut out = BitWriter::new();
    let mut low: u32 = 0;
    let mut high: u32 = 0xFFFF_FFFF;
    let mut pending: u64 = 0;
    let mut i: usize = 0;
    while i < symbols.len()
        invariant
            i <= symbols@.len() <= MAX_SYMBOLS,
            cum_wf(cum0, cap),
            within_budget(cum0, cap, symbols@.len()),
            cap > MODEL_LIMIT ==> model.cum_seq().last() == cum0.last() + i,
            symbols_in_range(symbols@, cum0.len()),
            out.wf(),
            model.wf(),
            model.cap_value() == cap,
            model.cum_seq() == model_after(cum0, cap, symbols@.take(i as int)),
            model.cum_seq().len() == cum0.len(),
            enc_after(cum0, cap, symbols@.take(i as int)) == (EncState {
                low,
                high,
                pending: pending as nat,
                bits: out.written(),
            }),
            settled(low, high) || (low == 0 && high == 0xFFFF_FFFF),
            pending <= 32 * i,
            orig_trace is Some <==> trace is Some,
            trace matches Some(t) ==> t@ == orig_trace->0@ + fingerprints(
                cum0,
                cap,
                symbols@.take(i as int),
            ),
            trace matches Some(t) ==> *final(t) == *final(orig_trace->0),
        decreases symbols@.len() - i,
    {
        let s = symbols[i];
        let ghost before = symbols@.take(i as int);
        let ghost after = symbols@.take(i + 1);
        assert(after.drop_last() =~= before);
        let total = model.total();
        let ghost mcum = model.cum_seq();
        assert(mcum[0] < mcum[s as int + 1] <= mcum.last()) by {
            if s + 1 < mcum.len() - 1 {
                assert(mcum[s as int + 1] < mcum[mcum.len() - 1]);
            }
        }
        assert(mcum[s as int] < mcum[s as int + 1]);
        let cl = model.cum(s);
        let ch = model.cum(s + 1);
        narrow(&mut low, &mut high, cl, ch, total);
        let ghost target = enc_scale(EncState { low, high, pending: pending as nat, bits: out.written() });
        let ghost p_start = pending;
        let ghost mut steps: nat = 0;
        proof {
            vstd::arithmetic::power2::lemma2_to64();
        }
        loop
            invariant_except_break
                low <= high,
                out.wf(),
                enc_scale(EncState { low, high, pending: pending as nat, bits: out.written() }) == target,
                pending <= p_start + steps,
                p_start <= 32 * i,
                i < MAX_SYMBOLS,
                (high - low + 1) as int >= vstd::arithmetic::power2::pow2(steps),
                steps <= 32,
            ensures
                out.wf(),
                target == (EncState { low, high, pending: pending as nat, bits: out.written() }),
                settled(low, high),
                pending <= p_start + 32,
            decreases 0xFFFF_FFFFint - (high - low),
        {
            let ghost pre = EncState { low, high, pending: pending as nat, bits: out.written() };
            proof {
                vstd::arithmetic::power2::lemma2_to64();
                if steps == 32 {
                    assert(vstd::arithmetic::power2::pow2(32) == 0x1_0000_0000);
                }
            }
            if high < HALF {
                emit(&mut out, &mut pending, false);
            } else if low >= HALF {
                emit(&mut out, &mut pending, true);
                low = low - HALF;
                high = high - HALF;
            } else if low >= QUARTER && high < THREE_QUARTERS {
                pending = pending + 1;
                low = low - QUARTER;
                high = high - QUARTER;
            } else {
                break;
            }
            proof {
                lemma_double(low, high);
                vstd::arithmetic::power2::lemma_pow2_unfold(steps + 1);
            }
            low = low << 1;
            high = (high << 1) | 1;
            proof {
                steps = steps + 1;
                assert(enc_scale(pre) == enc_scale(
                    EncState { low, high, pending: pending as nat, bits: out.written() },
                ));
            }
        }
        model.update(s);
        let fp = model.fingerprint();
        proof {
            let f0 = fingerprints(cum0, cap, before);
            let f1 = fingerprints(cum0, cap, after);
            assert forall|k: int| 0 <= k < f0.len() implies f1[k] == f0[k] by {
                assert(after.take(k + 1) =~= before.take(k + 1));
            }
            assert(after.take(i + 1) =~= after);
            assert(after.last() == s);
            assert(model.cum_seq() == model_after(cum0, cap, after));
            assert(f1 =~= f0.push(fp));
        }
        match &mut trace {
            Some(t) => {
                t.push(fp);
            },
            None => {},
        }
        i += 1;
    }
    assert(symbols@.take(i as int) =~= symbols@);
    pending = pending + 1;
    let final_bit = low >= QUARTER;
    emit(&mut out, &mut pending, final_bit);
    out.finish()
}

// -------------------- Decoder --------------------

/// The state of the decoder between symbols: the current interval, the code
/// value inside it, and how many code bits have been read.
pub struct DecState {
    pub low: u32,
    pub high: u32,
    pub value: u32,
    pub read: nat,
}

/// Code bit `i` as a number.
pub open spec fn bitv(src: spec_fn(int) -> bool, i: int) -> int {
    if src(i) {
        1
    } else {
        0
    }
}

/// The first `n` code bits read as a binary number.
pub open spec fn code_value(src: spec_fn(int) -> bool, n: nat) -> int
    decreases n,
{
    if n == 0 {
        0
    } else {
        2 * code_value(src, (n - 1) as nat) + bitv(src, n - 1)
    }
}

/// The decoder's initial state: the whole range, the first 32 code bits read.
pub open spec fn dec_init(src: spec_fn(int) -> bool) -> DecState {
    DecState { low: 0, high: 0xFFFF_FFFF, value: code_value(src, 32) as u32, read: 32 }
}

/// Rescales the interval as the encoder did, shifting a new code bit into the
/// value at each step.
pub open spec fn dec_scale(src: spec_fn(int) -> bool, st: DecState) -> DecState
    decreases 0xFFFF_FFFFint - (st.high - st.low),
{
    if st.low > st.high {
        st
    } else if st.high < HALF {
        dec_scale(
            src,
            DecState {
                low: (2 * st.low) as u32,
                high: (2 * st.high + 1) as u32,
                value: (2 * st.value + bitv(src, st.read as int)) as u32,
                read: st.read + 1,
            },
        )
    } else if st.low >= HALF {
        dec_scale(
            src,
            DecState {
                low: (2 * (st.low - HALF)) as u32,
                high: (2 * (st.high - HALF) + 1) as u32,
                value: (2 * (st.value - HALF) + bitv(src, st.read as int)) as u32,
                read: st.read + 1,
            },
        )
    } else if st.low >= QUARTER && st.high < THREE_QUARTERS {
        dec_scale(
            src,
            DecState {
                low: (2 * (st.low - QUARTER)) as u32,
                high: (2 * (st.high - QUARTER) + 1) as u32,
                value: (2 * (st.value - QUARTER) + bitv(src, st.read as int)) as u32,
                read: st.read + 1,
            },
        )
    } else {
        st
    }
}

/// Where the code value falls on the model's scale `[0, total)`.
pub open spec fn dec_target(st: DecState, total: int) -> int {
    ((st.value - st.low + 1) * total - 1) / (st.high - st.low + 1)
}

/// The symbol whose slice holds `target`.
pub open spec fn owner(cum: Seq<u32>, target: int) -> int {
    choose|s: int| owns(cum, s, target)
}

/// Narrows the decoder's interval to the slice of symbol `s`.
pub open spec fn dec_narrow(st: DecState, cum: Seq<u32>, s: int) -> DecState {
    let (l, h) = narrowed(st.low, st.high, cum[s] as int, cum[s + 1] as int, cum.last() as int);
    DecState { low: l, high: h, value: st.value, read: st.read }
}

/// The decoder's state and the symbols decoded after `k` steps over the code
/// bits `src`, with the adaptive model that starts at `cum0`.
pub open spec fn dec_run(src: spec_fn(int) -> bool, cum0: Seq<u32>, cap: u32, k: nat) -> (DecState, Seq<usize>)
    decreases k,
{
    if k == 0 {
        (dec_init(src), Seq::empty())
    } else {
        let (st, syms) = dec_run(src, cum0, cap, (k - 1) as nat);
        let cum = model_after(cum0, cap, syms);
        let s = owner(cum, dec_target(st, cum.last() as int));
        (dec_scale(src, dec_narrow(st, cum, s)), syms.push(s as usize))
    }
}

/// The first `count` symbols decoded from the code bits `src`.
pub open spec fn decoded(src: spec_fn(int) -> bool, cum0: Seq<u32>, cap: u32, count: nat) -> Seq<usize> {
    dec_run(src, cum0, cap, count).1
}

/// The code bits of a byte string, zero past its end.
pub open spec fn byte_source(bytes: Seq<u8>) -> spec_fn(int) -> bool {
    |i: int| bit_at(bytes, i)
}

/// `x <= y / r` exactly when `x * r <= y`.
pub proof fn lemma_le_div(x: int, y: int, r: int)
    requires
        r > 0,
    ensures
        x <= y / r <==> x * r <= y,
{
    vstd::arithmetic::div_mod::lemma_fundamental_div_mod(y, r);
    let q = y / r;
    assert(y == r * q + y % r);
    assert(0 <= y % r < r);
    if x <= q {
        assert(x * r <= q * r) by (nonlinear_arith)
            requires
                x <= q,
                r > 0,
        ;
        assert(q * r == r * q) by (nonlinear_arith);
    }
    if x * r <= y {
        if x > q {
            assert(x * r >= (q + 1) * r) by (nonlinear_arith)
                requires
                    x >= q + 1,
                    r > 0,
            ;
            assert((q + 1) * r == r * q + r) by (nonlinear_arith);
        }
    }
}

/// The decoder's target falls in the slice of a symbol exactly when the code
/// value falls in the sub-interval that the encoder narrowed to for it.
pub proof fn lemma_target_in_slice(d: int, r: int, t: int, cl: int, ch: int)
    requires
        0 <= d < r,
        0 < t,
        0 <= cl < ch,
    ensures
        (cl <= ((d + 1) * t - 1) / r < ch) <==> (r * cl / t <= d <= r * ch / t - 1),
{
    let y = (d + 1) * t - 1;
    lemma_le_div(cl, y, r);
    lemma_le_div(ch, y, r);
    lemma_le_div(d + 1, r * cl, t);
    lemma_le_div(d + 1, r * ch, t);
    assert(cl * r == r * cl) by (nonlinear_arith);
    assert(ch * r == r * ch) by (nonlinear_arith);
    assert((d + 1) * t == (d + 1) * t);
}

/// The target always lies inside `[0, total)` while the value lies inside the
/// interval.
pub proof fn lemma_target_bounds(d: int, r: int, t: int)
    requires
        0 <= d < r,
        0 < t,
    ensures
        0 <= ((d + 1) * t - 1) / r < t,
{
    let y = (d + 1) * t - 1;
    assert(0 <= y) by (nonlinear_arith)
        requires
            y == (d + 1) * t - 1,
            0 <= d,
            0 < t,
    ;
    lemma_le_div(t, y, r);
    assert(y < t * r) by (nonlinear_arith)
        requires
            y == (d + 1) * t - 1,
            d + 1 <= r,
            0 < t,
    ;
    lemma_le_div(0, y, r);
}

/// Shifting one bit into a value from the lower half of the range.
proof fn lemma_shift_in(v: u32, b: u32)
    by (bit_vector)
    requires
        v < 0x8000_0000u32,
        b <= 1,
    ensures
        (v << 1u32) | b == 2 * v + b,
{
}

proof fn lemma_code_value_bound(src: spec_fn(int) -> bool, n: nat)
    ensures
        0 <= code_value(src, n) < vstd::arithmetic::power2::pow2(n),
    decreases n,
{
    if n > 0 {
        lemma_code_value_bound(src, (n - 1) as nat);
        vstd::arithmetic::power2::lemma_pow2_unfold(n);
    } else {
        vstd::arithmetic::power2::lemma2_to64();
    }
}

/// Decodes `count` symbols from `bytes` with the adaptive `model`, updating
/// the model after each symbol as the encoder did. `expected` plays no part in
/// the result.
pub fn decode_adaptive(bytes: &[u8], count: usize, model: &mut AdaptiveDist, expected: Option<&[u64]>) -> (symbols: Vec<usize>)
    requires
        old(model).wf(),
        within_budget(old(model).cum_seq(), old(model).cap_value(), count as nat),
        count > 0 ==> old(model).cum_seq().len() >= 2,
    ensures
        symbols@ == decoded(byte_source(bytes@), old(model).cum_seq(), old(model).cap_value(), count as nat),
        symbols_in_range(symbols@, old(model).cum_seq().len()),
        final(model).cum_seq() == model_after(old(model).cum_seq(), old(model).cap_value(), symbols@),
        final(model).cap_value() == old(model).cap_value(),
        final(model).wf(),
{
    let ghost src = |i: int| bit_at(bytes@, i);
    assert(src =~= byte_source(bytes@));
    let ghost cum0 = model.cum_seq();
    let ghost cap = model.cap_value();
    let mut input = BitReader::new(bytes);
    let mut low: u32 = 0;
    let mut high: u32 = 0xFFFF_FFFF;
    let mut value: u32 = 0;
    let mut k: u32 = 0;
    while k < 32
        invariant
            k <= 32,
            input.wf(),
            input.source() == bytes@,
            input.consumed() == k,
            forall|j: int| #[trigger] src(j) == bit_at(bytes@, j),
            value == code_value(src, k as nat),
        decreases 32 - k,
    {
        proof {
            lemma_code_value_bound(src, k as nat);
            vstd::arithmetic::power2::lemma2_to64();
            if k < 31 {
                vstd::arithmetic::power2::lemma_pow2_strictly_increases(k as nat, 31);
            }
        }
        let ghost at = input.consumed() as int;
        let bit = input.get();
        let b: u32 = if bit {
            1
        } else {
            0
        };
        proof {
            lemma_shift_in(value, b);
            assert(src(at) == bit);
            assert(b == bitv(src, k as int));
        }
        value = (value << 1) | b;
        k += 1;
    }
    let mut symbols: Vec<usize> = Vec::new();
    let mut i: usize = 0;
    proof {
        lemma_code_value_bound(src, 32);
        vstd::arithmetic::power2::lemma2_to64();
    }
    while i < count
        invariant
            i <= count,
            cum_wf(cum0, cap),
            within_budget(cum0, cap, count as nat),
            count > 0 ==> cum0.len() >= 2,
            cap > MODEL_LIMIT ==> model.cum_seq().last() == cum0.last() + i,
            input.wf(),
            input.source() == bytes@,
            forall|j: int| #[trigger] src(j) == bit_at(bytes@, j),
            model.wf(),
            model.cap_value() == cap,
            model.cum_seq().len() == cum0.len(),
            model.cum_seq() == model_after(cum0, cap, symbols@),
            symbols_in_range(symbols@, cum0.len()),
            dec_run(src, cum0, cap, i as nat) == (DecState { low, high, value, read: input.consumed() }, symbols@),
            settled(low, high) || (low == 0 && high == 0xFFFF_FFFF),
            low <= value <= high,
        decreases count - i,
    {
        let total = model.total();
        let range = (high - low) as u64 + 1;
        let ghost st = DecState { low, high, value, read: input.consumed() };
        let ghost cum = model.cum_seq();
        proof {
            assert(cum[0] < cum.last());
            lemma_target_bounds((value - low) as int, range as int, total as int);
            assert(((value - low) as u64 + 1) * total <= 0x1_0000_0000 * 0x4000_0000) by (nonlinear_arith)
                requires
                    (value - low) as u64 + 1 <= 0x1_0000_0000,
                    total <= 0x4000_0000,
            ;
            assert(((value - low) as u64 + 1) * total >= 1) by (nonlinear_arith)
                requires
                    (value - low) as u64 + 1 >= 1,
                    total >= 1,
            ;
        }
        let target = (((value - low) as u64 + 1) * total - 1) / range;
        let s = model.lookup(target);
        proof {
            let t = dec_target(st, total as int);
            assert(t == target);
            assert(owns(cum, owner(cum, t), t));
            lemma_owner_unique(cum, s as int, owner(cum, t), t);
            lemma_target_in_slice(
                (value - low) as int,
                range as int,
                total as int,
                cum[s as int] as int,
                cum[s as int + 1] as int,
            );
        }
        let cl = model.cum(s);
        let ch = model.cum(s + 1);
        let ghost (low0, high0) = (low, high);
        narrow(&mut low, &mut high, cl, ch, total);
        proof {
            lemma_narrow_bounds(range as int, cl as int, ch as int, total as int);
            assert(low as int == low0 + (range as int) * (cl as int) / (total as int));
            assert(high as int == low0 + (range as int) * (ch as int) / (total as int) - 1);
        }
        let ghost target_state = dec_scale(src, DecState { low, high, value, read: input.consumed() });
        loop
            invariant_except_break
                low <= value <= high,
                input.wf(),
                input.source() == bytes@,
                forall|j: int| #[trigger] src(j) == bit_at(bytes@, j),
                dec_scale(src, DecState { low, high, value, read: input.consumed() }) == target_state,
            ensures
                input.wf(),
                input.source() == bytes@,
                target_state == (DecState { low, high, value, read: input.consumed() }),
                settled(low, high),
                low <= value <= high,
            decreases 0xFFFF_FFFFint - (high - low),
        {
            let ghost pre = DecState { low, high, value, read: input.consumed() };
            if high < HALF {
            } else if low >= HALF {
                low = low - HALF;
                high = high - HALF;
                value = value - HALF;
            } else if low >= QUARTER && high < THREE_QUARTERS {
                low = low - QUARTER;
                high = high - QUARTER;
                value = value - QUARTER;
            } else {
                break;
            }
            let ghost at = input.consumed() as int;
            let bit = input.get();
            let b: u32 = if bit {
                1
            } else {
                0
            };
            proof {
                assert(src(at) == bit);
                assert(b == bitv(src, pre.read as int));
                lemma_double(low, high);
                lemma_shift_in(value, b);
            }
            low = low << 1;
            high = (high << 1) | 1;
            value = (value << 1) | b;
            assert(dec_scale(src, pre) == dec_scale(
                src,
                DecState { low, high, value, read: input.consumed() },
            ));
        }
        let ghost prev = symbols@;
        symbols.push(s);
        model.update(s);
        proof {
            assert(symbols@.drop_last() =~= prev);
            assert(model.cum_seq() == model_after(cum0, cap, symbols@));
        }
        i += 1;
    }
    symbols
}

// -------------------- EZW symbol streams --------------------

/// Cap of the models of both zerotree contexts.
pub const CONTEXT_CAP: u32 = 16384;

/// The two alphabets of the zerotree coder: the dominant pass codes
/// significance, the refinement pass codes one more magnitude bit.
#[derive(Debug, Clone, Copy, PartialEq, Eq, Structural)]
pub enum Context {
    Dominant,
    Refinement,
}

/// The pass a symbol belongs to.
pub open spec fn context_of(s: Symbol) -> Context {
    match s {
        Symbol::ZeroTree | Symbol::IsolatedZero | Symbol::Positive | Symbol::Negative => Context::Dominant,
        Symbol::RefineOne | Symbol::RefineZero => Context::Refinement,
    }
}

/// Number of symbols of a context's alphabet.
pub open spec fn alphabet_len(c: Context) -> nat {
    match c {
        Context::Dominant => 4,
        Context::Refinement => 2,
    }
}

/// Position of a symbol in its context's alphabet.
pub open spec fn symbol_index(s: Symbol) -> usize {
    match s {
        Symbol::ZeroTree => 0,
        Symbol::IsolatedZero => 1,
        Symbol::Positive => 2,
        Symbol::Negative => 3,
        Symbol::RefineZero => 0,
        Symbol::RefineOne => 1,
    }
}

/// The symbol at position `i` of a context's alphabet (`i` below the
/// alphabet's length).
pub open spec fn symbol_in(c: Context, i: int) -> Symbol {
    match c {
        Context::Dominant => if i == 0 {
            Symbol::ZeroTree
        } else if i == 1 {
            Symbol::IsolatedZero
        } else if i == 2 {
            Symbol::Positive
        } else {
            Symbol::Negative
        },
        Context::Refinement => if i == 0 {
            Symbol::RefineZero
        } else {
            Symbol::RefineOne
        },
    }
}

/// The starting model of a context: every symbol of its alphabet counted once.
pub open spec fn context_model(c: Context) -> Seq<u32> {
    Seq::new(alphabet_len(c) + 1, |i: int| i as u32)
}

/// Looking a symbol up in its alphabet and reading it back gives the symbol,
/// and the other way round.
pub proof fn lemma_alphabet_roundtrip(s: Symbol, c: Context, i: int)
    ensures
        symbol_in(context_of(s), symbol_index(s) as int) == s,
        symbol_index(s) < alphabet_len(context_of(s)),
        0 <= i < alphabet_len(c) ==> context_of(symbol_in(c, i)) == c && symbol_index(symbol_in(c, i)) == i,
{
}

impl Context {
    /// The pass that symbol `s` belongs to.
    pub fn of(s: Symbol) -> (c: Self)
        ensures
            c == context_of(s),
    {
        match s {
            Symbol::ZeroTree | Symbol::IsolatedZero | Symbol::Positive | Symbol::Negative => {
                Context::Dominant
            },
            Symbol::RefineOne | Symbol::RefineZero => Context::Refinement,
        }
    }

    /// A fresh adaptive model over this context's alphabet.
    fn model(self) -> (m: AdaptiveDist)
        ensures
            m.cum_seq() == context_model(self),
            m.cap_value() == CONTEXT_CAP,
            m.wf(),
    {
        let m = match self {
            Context::Dominant => AdaptiveDist::new(4, CONTEXT_CAP),
            Context::Refinement => AdaptiveDist::new(2, CONTEXT_CAP),
        };
        assert(m.cum_seq() =~= context_model(self));
        m
    }

    /// Position of `s` in this context's alphabet.
    pub fn index_of(self, s: Symbol) -> (i: usize)
        requires
            context_of(s) == self,
        ensures
            i == symbol_index(s),
            i < alphabet_len(self),
            symbol_in(self, i as int) == s,
    {
        match s {
            Symbol::ZeroTree => 0,
            Symbol::IsolatedZero => 1,
            Symbol::Positive => 2,
            Symbol::Negative => 3,
            Symbol::RefineZero => 0,
            Symbol::RefineOne => 1,
        }
    }

    /// The symbol at position `i` of this context's alphabet.
    pub fn symbol_at(self, i: usize) -> (s: Symbol)
        requires
            i < alphabet_len(self),
        ensures
            s == symbol_in(self, i as int),
            context_of(s) == self,
            symbol_index(s) == i,
    {
        match self {
            Context::Dominant => if i == 0 {
                Symbol::ZeroTree
            } else if i == 1 {
                Symbol::IsolatedZero
            } else if i == 2 {
                Symbol::Positive
            } else {
                Symbol::Negative
            },
            Context::Refinement => if i == 0 {
                Symbol::RefineZero
            } else {
                Symbol::RefineOne
            },
        }
    }
}

/// The symbols of `s` that belong to context `c`, in order.
pub open spec fn stream_of(s: Seq<Symbol>, c: Context) -> Seq<Symbol>
    decreases s.len(),
{
    if s.len() == 0 {
        Seq::empty()
    } else if context_of(s.last()) == c {
        stream_of(s.drop_last(), c).push(s.last())
    } else {
        stream_of(s.drop_last(), c)
    }
}

/// The alphabet positions of a run of symbols.
pub open spec fn indices_of(s: Seq<Symbol>) -> Seq<usize> {
    Seq::new(s.len(), |i: int| symbol_index(s[i]))
}

/// The symbols of context `c` at the given alphabet positions.
pub open spec fn symbols_at(c: Context, idx: Seq<usize>) -> Seq<Symbol> {
    Seq::new(idx.len(), |i: int| symbol_in(c, idx[i] as int))
}

/// The arithmetic-coded bytes of the symbols of `s` in context `c`.
pub open spec fn coded_stream(s: Seq<Symbol>, c: Context) -> Seq<u8> {
    pack_bits(encoded_bits(context_model(c), CONTEXT_CAP, indices_of(stream_of(s, c))))
}

/// The bytes `encode_symbols` writes: the number of dominant symbols, the
/// number of refinement symbols and the length of the dominant payload as
/// varints, then the dominant payload, then the refinement payload.
pub open spec fn symbol_container(s: Seq<Symbol>) -> Seq<u8> {
    let db = coded_stream(s, Context::Dominant);
    let rb = coded_stream(s, Context::Refinement);
    varint_bytes(stream_of(s, Context::Dominant).len()) + varint_bytes(
        stream_of(s, Context::Refinement).len(),
    ) + varint_bytes(db.len()) + db + rb
}

/// The varint at `at`, reduced to 64 bits, and the position after it.
pub open spec fn varint_at(b: Seq<u8>, at: int) -> (u64, int) {
    let k = varint_size(b, at, 10)->0;
    ((varint_value(b, at, k) % 0x1_0000_0000_0000_0000) as u64, at + k)
}

/// The three header fields of a symbol container and where its payload
/// starts.
pub open spec fn container_header(b: Seq<u8>) -> (u64, u64, u64, int) {
    let (n_dom, p1) = varint_at(b, 0);
    let (n_ref, p2) = varint_at(b, p1);
    let (len_dom, p3) = varint_at(b, p2);
    (n_dom, n_ref, len_dom, p3)
}

/// The header of a symbol container can be read and the dominant payload lies
/// inside the bytes.
pub open spec fn container_ok(b: Seq<u8>) -> bool {
    &&& varint_ok(b, 0)
    &&& varint_ok(b, varint_at(b, 0).1)
    &&& varint_ok(b, varint_at(b, varint_at(b, 0).1).1)
    &&& container_header(b).3 + (container_header(b).2 as usize) <= b.len()
}

/// The dominant and the refinement symbols read back from a container.
pub open spec fn container_streams(b: Seq<u8>) -> (Seq<Symbol>, Seq<Symbol>) {
    let (n_dom, n_ref, len_dom, start) = container_header(b);
    let mid = start + (len_dom as usize);
    (
        symbols_at(
            Context::Dominant,
            decoded(
                byte_source(b.subrange(start, mid)),
                context_model(Context::Dominant),
                CONTEXT_CAP,
                (n_dom as usize) as nat,
            ),
        ),
        symbols_at(
            Context::Refinement,
            decoded(
                byte_source(b.subrange(mid, b.len() as int)),
                context_model(Context::Refinement),
                CONTEXT_CAP,
                (n_ref as usize) as nat,
            ),
        ),
    )
}

/// The two symbol streams of the zerotree coder, as decoded.
pub struct SymbolStreams {
    pub dominant: Vec<Symbol>,
    pub refinement: Vec<Symbol>,
}

/// A context's stream is no longer than the symbols it comes from, and holds
/// only symbols of that context.
pub proof fn lemma_stream_of_len(s: Seq<Symbol>, c: Context)
    ensures
        stream_of(s, c).len() <= s.len(),
        forall|i: int| 0 <= i < stream_of(s, c).len() ==> context_of(#[trigger] stream_of(s, c)[i]) == c,
    decreases s.len(),
{
    if s.len() > 0 {
        lemma_stream_of_len(s.drop_last(), c);
    }
}

/// Splits `symbols` into the dominant and the refinement streams and
/// arithmetic-codes each with its own adaptive model.
pub fn encode_symbols(symbols: &[Symbol]) -> (out: Vec<u8>)
    requires
        symbols@.len() <= MAX_SYMBOLS,
    ensures
        out@ == symbol_container(symbols@),
{
    let mut dom: Vec<usize> = Vec::new();
    let mut refs: Vec<usize> = Vec::new();
    let mut i: usize = 0;
    while i < symbols.len()
        invariant
            i <= symbols@.len(),
            dom@ == indices_of(stream_of(symbols@.take(i as int), Context::Dominant)),
            refs@ == indices_of(stream_of(symbols@.take(i as int), Context::Refinement)),
        decreases symbols@.len() - i,
    {
        let s = symbols[i];
        let c = Context::of(s);
        let ghost pre = symbols@.take(i as int);
        assert(symbols@.take(i + 1).drop_last() =~= pre);
        let ghost dom_before = dom@;
        let ghost refs_before = refs@;
        match c {
            Context::Dominant => {
                dom.push(c.index_of(s));
                assert(dom@ =~= indices_of(stream_of(symbols@.take(i + 1), Context::Dominant)));
                assert(refs@ =~= indices_of(stream_of(symbols@.take(i + 1), Context::Refinement)));
            },
            Context::Refinement => {
                refs.push(c.index_of(s));
                assert(dom@ =~= indices_of(stream_of(symbols@.take(i + 1), Context::Dominant)));
                assert(refs@ =~= indices_of(stream_of(symbols@.take(i + 1), Context::Refinement)));
            },
        }
        i += 1;
    }
    assert(symbols@.take(i as int) =~= symbols@);
    proof {
        lemma_stream_of_len(symbols@, Context::Dominant);
        lemma_stream_of_len(symbols@, Context::Refinement);
        assert forall|k: int| 0 <= k < dom@.len() implies dom@[k] + 1 < context_model(Context::Dominant).len() by {
            lemma_alphabet_roundtrip(stream_of(symbols@, Context::Dominant)[k], Context::Dominant, 0);
        }
        assert forall|k: int| 0 <= k < refs@.len() implies refs@[k] + 1 < context_model(Context::Refinement).len() by {
            lemma_alphabet_roundtrip(stream_of(symbols@, Context::Refinement)[k], Context::Refinement, 0);
        }
    }
    let mut dom_model = Context::Dominant.model();
    let mut dom_bytes = encode_adaptive(dom.as_slice(), &mut dom_model, None);
    let mut ref_model = Context::Refinement.model();
    let mut ref_bytes = encode_adaptive(refs.as_slice(), &mut ref_model, None);
    proof {
        lemma_packs_is_pack_bits(
            dom_bytes@,
            encoded_bits(context_model(Context::Dominant), CONTEXT_CAP, dom@),
        );
        lemma_packs_is_pack_bits(
            ref_bytes@,
            encoded_bits(context_model(Context::Refinement), CONTEXT_CAP, refs@),
        );
    }
    let mut out: Vec<u8> = Vec::new();
    put_varint(&mut out, dom.len() as u64);
    put_varint(&mut out, refs.len() as u64);
    put_varint(&mut out, dom_bytes.len() as u64);
    out.append(&mut dom_bytes);
    out.append(&mut ref_bytes);
    out
}

/// Reads a container written by `encode_symbols` back into its dominant and
/// refinement streams.
pub fn decode_symbols(bytes: &[u8]) -> (streams: SymbolStreams)
    requires
        container_ok(bytes@),
    ensures
        (streams.dominant@, streams.refinement@) == container_streams(bytes@),
{
    let ghost b = bytes@;
    let ghost (h_dom, h_ref, h_len, h_start) = container_header(b);
    let mut at: usize = 0;
    let v_dom = take_varint(bytes, &mut at);
    assert((v_dom, at as int) == varint_at(b, 0));
    let v_ref = take_varint(bytes, &mut at);
    assert((v_ref, at as int) == varint_at(b, varint_at(b, 0).1));
    let v_len = take_varint(bytes, &mut at);
    assert(v_len == h_len && at == h_start);
    let n_dom = v_dom as usize;
    let n_ref = v_ref as usize;
    let len_dom = v_len as usize;
    assert(container_header(b).2 == v_len && container_header(b).3 == at);
    let total_len = bytes.len();
    assert(at + len_dom <= total_len);
    let mid = at + len_dom;
    let dom_bytes = &bytes[at..mid];
    let ref_bytes = &bytes[mid..bytes.len()];
    let mut dom_model = Context::Dominant.model();
    let dom = decode_adaptive(dom_bytes, n_dom, &mut dom_model, None);
    let mut ref_model = Context::Refinement.model();
    let refs = decode_adaptive(ref_bytes, n_ref, &mut ref_model, None);
    let dominant = symbols_of(Context::Dominant, &dom);
    let refinement = symbols_of(Context::Refinement, &refs);
    SymbolStreams { dominant, refinement }
}

/// Whether `bytes` is a container that `decode_symbols` can read: its header
/// can be read and the dominant payload lies inside the bytes.
pub fn symbol_container_ok(bytes: &[u8]) -> (ok: bool)
    ensures
        ok == container_ok(bytes@),
{
    let ghost b = bytes@;
    let mut at: usize = 0;
    if varint_len(bytes, at).is_none() {
        return false;
    }
    let _n_dom = take_varint(bytes, &mut at);
    assert(at as int == varint_at(b, 0).1);
    if varint_len(bytes, at).is_none() {
        return false;
    }
    let _n_ref = take_varint(bytes, &mut at);
    assert(at as int == varint_at(b, varint_at(b, 0).1).1);
    if varint_len(bytes, at).is_none() {
        return false;
    }
    let len_dom = take_varint(bytes, &mut at) as usize;
    assert(container_header(b).2 as usize == len_dom && container_header(b).3 == at);
    let total = bytes.len();
    at <= total && len_dom <= total - at
}

/// The symbols of context `c` at the alphabet positions `idx`.
fn symbols_of(c: Context, idx: &Vec<usize>) -> (out: Vec<Symbol>)
    requires
        symbols_in_range(idx@, alphabet_len(c) + 1),
    ensures
        out@ == symbols_at(c, idx@),
{
    let mut out: Vec<Symbol> = Vec::new();
    let mut i: usize = 0;
    while i < idx.len()
        invariant
            i <= idx@.len(),
            symbols_in_range(idx@, alphabet_len(c) + 1),
            out@ == symbols_at(c, idx@.take(i as int)),
        decreases idx@.len() - i,
    {
        out.push(c.symbol_at(idx[i]));
        i += 1;
        assert(out@ =~= symbols_at(c, idx@.take(i as int)));
    }
    assert(idx@.take(i as int) =~= idx@);
    out
}

} // verus!
