//! Why the arithmetic decoder gives back what the encoder coded.
//!
//! Let `C` be the code bits followed by zeros. At every step the encoder's
//! interval `[low, high]`, read at the resolution of the bits emitted plus the
//! bits owed, contains the matching window of `C`; the decoder's value is that
//! window. The window is `rel(C, emitted, pending)`: the next `pending + 32`
//! bits of `C` less the offset that the owed bits stand for.
use vstd::prelude::*;
use vstd::arithmetic::power2::{pow2, lemma2_to64, lemma_pow2_adds, lemma_pow2_unfold};
use crate::stages::arithmetic::{
    bitv, byte_source, code_value, dec_init, dec_narrow, dec_run, dec_scale, dec_target, decoded,
    emitted, enc_after, enc_flush, enc_init, enc_narrow, enc_scale, encoded_bits,
    lemma_model_after_wf, lemma_narrow_bounds, lemma_target_in_slice, model_after, narrowed,
    owner, settled, symbols_in_range, DecState, EncState, HALF, QUARTER, THREE_QUARTERS,
};
use crate::stages::arithmetic::{
    coded_stream, container_header, container_ok, container_streams, context_model,
    context_of, indices_of, lemma_alphabet_roundtrip, stream_of, symbol_container, symbols_at,
    varint_at, Context, CONTEXT_CAP, MAX_SYMBOLS,
};
use crate::stages::bitio::{
    lemma_pack_bits_packs, lemma_varint_roundtrip, pack_bits, padded, packs, varint_bytes, varint_size,
};
use crate::Symbol;
use crate::stages::model::{cum_wf, lemma_owner_unique, owns, within_budget};

verus! {

/// `n` bits of `src` from position `b`, read as a binary number.
pub open spec fn cval_from(src: spec_fn(int) -> bool, b: int, n: nat) -> int
    decreases n,
{
    if n == 0 {
        0
    } else {
        2 * cval_from(src, b, (n - 1) as nat) + bitv(src, b + n - 1)
    }
}

/// The code window at bit `b` with `p` owed bits, relative to the interval's
/// frame.
pub open spec fn rel(src: spec_fn(int) -> bool, b: int, p: nat) -> int {
    cval_from(src, b, p + 32) - pow2(31) * (pow2(p) - 1)
}

/// `src` holds the bits of `bits` at their positions.
pub open spec fn agrees(src: spec_fn(int) -> bool, bits: Seq<bool>) -> bool {
    forall|i: int| 0 <= i < bits.len() ==> #[trigger] src(i) == bits[i]
}

/// `a` is a prefix of `b`.
pub open spec fn prefix_of(a: Seq<bool>, b: Seq<bool>) -> bool {
    &&& a.len() <= b.len()
    &&& forall|i: int| 0 <= i < a.len() ==> #[trigger] a[i] == b[i]
}

/// The code window of an encoder state.
pub open spec fn window(src: spec_fn(int) -> bool, e: EncState) -> int {
    rel(src, e.bits.len() as int, e.pending)
}

/// The window lies in the encoder's interval.
pub open spec fn inside(src: spec_fn(int) -> bool, e: EncState) -> bool {
    e.low <= window(src, e) <= e.high
}

/// The decoder state that goes with an encoder state.
pub open spec fn matching(src: spec_fn(int) -> bool, e: EncState) -> DecState {
    DecState {
        low: e.low,
        high: e.high,
        value: window(src, e) as u32,
        read: e.bits.len() + e.pending + 32,
    }
}

proof fn lemma_cval_split(src: spec_fn(int) -> bool, b: int, m: nat, n: nat)
    ensures
        cval_from(src, b, m + n) == cval_from(src, b, m) * pow2(n) + cval_from(src, b + m, n),
    decreases n,
{
    if n == 0 {
        lemma2_to64();
    } else {
        lemma_cval_split(src, b, m, (n - 1) as nat);
        lemma_pow2_unfold(n);
        let x = cval_from(src, b, m);
        let y = cval_from(src, b + m, (n - 1) as nat);
        let q = pow2((n - 1) as nat) as int;
        assert(cval_from(src, b, (m + n) as nat) == 2 * cval_from(src, b, (m + n - 1) as nat) + bitv(
            src,
            b + m + n - 1,
        ));
        assert(cval_from(src, b + m, n) == 2 * y + bitv(src, b + m + n - 1));
        assert(2 * (x * q + y) == x * (2 * q) + 2 * y) by (nonlinear_arith);
    }
}

proof fn lemma_cval_run(src: spec_fn(int) -> bool, b: int, n: nat, v: bool)
    requires
        forall|j: int| 0 <= j < n ==> #[trigger] src(b + j) == v,
    ensures
        cval_from(src, b, n) == if v {
            pow2(n) - 1
        } else {
            0
        },
    decreases n,
{
    if n == 0 {
        lemma2_to64();
    } else {
        lemma_cval_run(src, b, (n - 1) as nat, v);
        lemma_pow2_unfold(n);
        assert(src(b + (n - 1)) == v);
    }
}

proof fn lemma_code_value_is_cval(src: spec_fn(int) -> bool, n: nat)
    ensures
        code_value(src, n) == cval_from(src, 0, n),
    decreases n,
{
    if n > 0 {
        lemma_code_value_is_cval(src, (n - 1) as nat);
    }
}

/// Emitting a decided 0 and the owed 1s.
proof fn lemma_rel_zero(src: spec_fn(int) -> bool, b: int, p: nat)
    requires
        src(b) == false,
        forall|j: int| 0 <= j < p ==> #[trigger] src(b + 1 + j) == true,
    ensures
        rel(src, b, p) == cval_from(src, b + p + 1, 31),
        rel(src, b + p + 1, 0) == 2 * rel(src, b, p) + bitv(src, b + p + 32),
{
    lemma_cval_split(src, b, p + 1, 31);
    lemma_cval_split(src, b, 1, p);
    lemma_cval_run(src, b + 1, p, true);
    assert(cval_from(src, b, 1) == 2 * cval_from(src, b, 0) + bitv(src, b));
    assert(cval_from(src, b, 1) == 0);
    lemma2_to64();
    let q = pow2(p) as int;
    let x = cval_from(src, b + p + 1, 31);
    assert(cval_from(src, b, p + 1) == 0 * q + (q - 1));
    let m: nat = p + 1;
    let n32: nat = p + 32;
    assert(m + 31 == n32);
    assert(b + m == b + p + 1);
    assert(cval_from(src, b, n32) == cval_from(src, b, m) * pow2(31) + cval_from(src, b + m, 31));
    let c = cval_from(src, b, m);
    let w = pow2(31) as int;
    assert(c == cval_from(src, b, 1) * pow2(p) + cval_from(src, b + 1, p));
    assert(cval_from(src, b + 1, p) == q - 1);
    let c1 = cval_from(src, b, 1);
    assert(c1 * pow2(p) == 0) by (nonlinear_arith)
        requires
            c1 == 0,
    ;
    assert(c == q - 1);
    assert(c * w == (q - 1) * w) by (nonlinear_arith)
        requires
            c == q - 1,
    ;
    assert(cval_from(src, b, p + 32) == (q - 1) * pow2(31) + x);
    assert((q - 1) * pow2(31) == pow2(31) * (q - 1)) by (nonlinear_arith);
    assert(cval_from(src, b + p + 1, 32) == 2 * cval_from(src, b + p + 1, 31) + bitv(src, b + p + 1 + 31));
}

/// Emitting a decided 1 and the owed 0s.
proof fn lemma_rel_one(src: spec_fn(int) -> bool, b: int, p: nat)
    requires
        src(b) == true,
        forall|j: int| 0 <= j < p ==> #[trigger] src(b + 1 + j) == false,
    ensures
        rel(src, b, p) == pow2(31) + cval_from(src, b + p + 1, 31),
        rel(src, b + p + 1, 0) == 2 * (rel(src, b, p) - pow2(31)) + bitv(src, b + p + 32),
{
    lemma_cval_split(src, b, p + 1, 31);
    lemma_cval_split(src, b, 1, p);
    lemma_cval_run(src, b + 1, p, false);
    assert(cval_from(src, b, 1) == 2 * cval_from(src, b, 0) + bitv(src, b));
    assert(cval_from(src, b, 1) == 1);
    lemma2_to64();
    let x = cval_from(src, b + p + 1, 31);
    assert(cval_from(src, b, p + 1) == 1 * pow2(p) + 0);
    let m: nat = p + 1;
    let n32: nat = p + 32;
    assert(m + 31 == n32);
    assert(b + m == b + p + 1);
    assert(cval_from(src, b, n32) == cval_from(src, b, m) * pow2(31) + cval_from(src, b + m, 31));
    assert(cval_from(src, b, p + 32) == pow2(p) * pow2(31) + x);
    assert(cval_from(src, b + p + 1, 32) == 2 * cval_from(src, b + p + 1, 31) + bitv(src, b + p + 1 + 31));
    let q = pow2(p) as int;
    assert(q * pow2(31) - pow2(31) * (q - 1) == pow2(31)) by (nonlinear_arith);
}

/// Owing one more bit.
proof fn lemma_rel_owe(src: spec_fn(int) -> bool, b: int, p: nat)
    ensures
        rel(src, b, p + 1) == 2 * (rel(src, b, p) - pow2(30)) + bitv(src, b + p + 32),
{
    lemma_pow2_unfold(p + 1);
    lemma2_to64();
    assert(cval_from(src, b, p + 33) == 2 * cval_from(src, b, p + 32) + bitv(src, b + p + 32));
    let q = pow2(p) as int;
    assert(pow2(31) * (2 * q - 1) == 2 * (pow2(31) * (q - 1)) + pow2(31)) by (nonlinear_arith);
}

proof fn lemma_prefix_trans(a: Seq<bool>, b: Seq<bool>, c: Seq<bool>)
    requires
        prefix_of(a, b),
        prefix_of(b, c),
    ensures
        prefix_of(a, c),
{
    assert forall|i: int| 0 <= i < a.len() implies #[trigger] a[i] == c[i] by {
        assert(a[i] == b[i]);
    }
}

/// Rescaling only appends bits, and it ends with a settled interval.
proof fn lemma_scale_shape(e: EncState)
    requires
        e.low <= e.high,
    ensures
        prefix_of(e.bits, enc_scale(e).bits),
        settled(enc_scale(e).low, enc_scale(e).high),
        enc_scale(e).low <= enc_scale(e).high,
    decreases 0xFFFF_FFFFint - (e.high - e.low),
{
    if e.high < HALF {
        let e1 = EncState {
            low: (2 * e.low) as u32,
            high: (2 * e.high + 1) as u32,
            pending: 0,
            bits: emitted(e.bits, e.pending, false),
        };
        lemma_scale_shape(e1);
        assert(prefix_of(e.bits, e1.bits));
        lemma_prefix_trans(e.bits, e1.bits, enc_scale(e1).bits);
    } else if e.low >= HALF {
        let e1 = EncState {
            low: (2 * (e.low - HALF)) as u32,
            high: (2 * (e.high - HALF) + 1) as u32,
            pending: 0,
            bits: emitted(e.bits, e.pending, true),
        };
        lemma_scale_shape(e1);
        assert(prefix_of(e.bits, e1.bits));
        lemma_prefix_trans(e.bits, e1.bits, enc_scale(e1).bits);
    } else if e.low >= QUARTER && e.high < THREE_QUARTERS {
        let e1 = EncState {
            low: (2 * (e.low - QUARTER)) as u32,
            high: (2 * (e.high - QUARTER) + 1) as u32,
            pending: e.pending + 1,
            bits: e.bits,
        };
        lemma_scale_shape(e1);
    }
}

/// Rescaling keeps the window inside the interval exactly when it was inside
/// before, and the decoder's rescaling tracks the encoder's.
proof fn lemma_scale(src: spec_fn(int) -> bool, e: EncState)
    requires
        e.low <= e.high,
        agrees(src, enc_scale(e).bits),
    ensures
        inside(src, e) <==> inside(src, enc_scale(e)),
        inside(src, e) ==> dec_scale(src, matching(src, e)) == matching(src, enc_scale(e)),
    decreases 0xFFFF_FFFFint - (e.high - e.low),
{
    let b = e.bits.len() as int;
    let p = e.pending;
    lemma2_to64();
    if e.high < HALF {
        let e1 = EncState {
            low: (2 * e.low) as u32,
            high: (2 * e.high + 1) as u32,
            pending: 0,
            bits: emitted(e.bits, e.pending, false),
        };
        lemma_scale_shape(e1);
        assert(e1.bits[b] == false);
        assert forall|j: int| 0 <= j < p implies #[trigger] src(b + 1 + j) == true by {
            assert(e1.bits[b + 1 + j] == true);
        }
        lemma_rel_zero(src, b, p);
        lemma_scale(src, e1);
        if inside(src, e) {
            let d = matching(src, e);
            assert(d.read == b + p + 32);
        }
    } else if e.low >= HALF {
        let e1 = EncState {
            low: (2 * (e.low - HALF)) as u32,
            high: (2 * (e.high - HALF) + 1) as u32,
            pending: 0,
            bits: emitted(e.bits, e.pending, true),
        };
        lemma_scale_shape(e1);
        assert(e1.bits[b] == true);
        assert forall|j: int| 0 <= j < p implies #[trigger] src(b + 1 + j) == false by {
            assert(e1.bits[b + 1 + j] == false);
        }
        lemma_rel_one(src, b, p);
        lemma_scale(src, e1);
    } else if e.low >= QUARTER && e.high < THREE_QUARTERS {
        let e1 = EncState {
            low: (2 * (e.low - QUARTER)) as u32,
            high: (2 * (e.high - QUARTER) + 1) as u32,
            pending: e.pending + 1,
            bits: e.bits,
        };
        lemma_rel_owe(src, b, p);
        lemma_scale(src, e1);
    }
}

/// The encoder's interval is never empty, and after the first symbol it is
/// always settled.
proof fn lemma_enc_after_shape(cum0: Seq<u32>, cap: u32, syms: Seq<usize>)
    requires
        cum_wf(cum0, cap),
        within_budget(cum0, cap, syms.len()),
        symbols_in_range(syms, cum0.len()),
    ensures
        enc_after(cum0, cap, syms).low <= enc_after(cum0, cap, syms).high,
        syms.len() == 0 ==> enc_after(cum0, cap, syms) == enc_init(),
        syms.len() > 0 ==> settled(enc_after(cum0, cap, syms).low, enc_after(cum0, cap, syms).high),
    decreases syms.len(),
{
    if syms.len() > 0 {
        let prev = syms.drop_last();
        lemma_enc_after_shape(cum0, cap, prev);
        lemma_narrowing_ok(cum0, cap, prev, syms.last());
        let n = enc_narrow(enc_after(cum0, cap, prev), model_after(cum0, cap, prev), syms.last() as int);
        lemma_scale_shape(n);
    }
}

/// Narrowing the interval after `syms` to the slice of `s` leaves a non-empty
/// sub-interval.
proof fn lemma_narrowing_ok(cum0: Seq<u32>, cap: u32, syms: Seq<usize>, s: usize)
    requires
        cum_wf(cum0, cap),
        within_budget(cum0, cap, syms.len()),
        symbols_in_range(syms, cum0.len()),
        s + 1 < cum0.len(),
        enc_after(cum0, cap, syms).low <= enc_after(cum0, cap, syms).high,
        syms.len() == 0 ==> enc_after(cum0, cap, syms) == enc_init(),
        syms.len() > 0 ==> settled(enc_after(cum0, cap, syms).low, enc_after(cum0, cap, syms).high),
    ensures
        ({
            let e = enc_after(cum0, cap, syms);
            let n = enc_narrow(e, model_after(cum0, cap, syms), s as int);
            &&& e.low <= n.low <= n.high <= e.high
            &&& n.pending == e.pending
            &&& n.bits == e.bits
            &&& model_after(cum0, cap, syms).last() < e.high - e.low + 1
        }),
{
    let e = enc_after(cum0, cap, syms);
    let cum = model_after(cum0, cap, syms);
    lemma_model_after_wf(cum0, cap, syms);
    assert(cum[s as int] < cum[s as int + 1]);
    assert(cum[s as int + 1] <= cum.last()) by {
        if s + 1 < cum.len() - 1 {
            assert(cum[s as int + 1] < cum[cum.len() - 1]);
        }
    }
    assert(cum[0] < cum.last());
    lemma_narrow_bounds(e.high - e.low + 1, cum[s as int] as int, cum[s as int + 1] as int, cum.last() as int);
}

/// The bits after `k` symbols are a prefix of the bits after all of them.
proof fn lemma_after_prefix(cum0: Seq<u32>, cap: u32, syms: Seq<usize>, k: int)
    requires
        cum_wf(cum0, cap),
        within_budget(cum0, cap, syms.len()),
        symbols_in_range(syms, cum0.len()),
        0 <= k <= syms.len(),
    ensures
        prefix_of(enc_after(cum0, cap, syms.take(k)).bits, enc_after(cum0, cap, syms).bits),
    decreases syms.len(),
{
    if k == syms.len() {
        assert(syms.take(k) =~= syms);
    } else {
        let prev = syms.drop_last();
        assert(prev.take(k) =~= syms.take(k));
        lemma_after_prefix(cum0, cap, prev, k);
        lemma_enc_after_shape(cum0, cap, prev);
        lemma_narrowing_ok(cum0, cap, prev, syms.last());
        let n = enc_narrow(enc_after(cum0, cap, prev), model_after(cum0, cap, prev), syms.last() as int);
        lemma_scale_shape(n);
    }
}

/// The closing bits put the code value inside the last interval.
proof fn lemma_flush_inside(e: EncState)
    requires
        e.low <= e.high,
        settled(e.low, e.high) || e == enc_init(),
    ensures
        inside(|i: int| padded(enc_flush(e), i), e),
{
    let out = enc_flush(e);
    let src = |i: int| padded(out, i);
    let b = e.bits.len() as int;
    let p = e.pending;
    let v = e.low >= QUARTER;
    lemma2_to64();
    assert(src(b) == v);
    assert forall|j: int| 0 <= j < p + 1 implies #[trigger] src(b + 1 + j) == !v by {
        assert(out[b + 1 + j] == !v);
    }
    assert forall|j: int| 0 <= j < 30 implies #[trigger] src(b + (p + 2) + j) == false by {
        assert(b + (p + 2) + j >= out.len());
    }
    lemma_cval_split(src, b, p + 2, 30);
    lemma_cval_run(src, b + (p + 2), 30, false);
    lemma_cval_split(src, b, 1, p + 1);
    lemma_cval_run(src, b + 1, p + 1, !v);
    lemma_pow2_unfold(p + 1);
    lemma_pow2_adds(p + 1, 30);
    let q = pow2(p) as int;
    assert(cval_from(src, b, 1) == 2 * cval_from(src, b, 0) + bitv(src, b));
    let m2: nat = p + 2;
    let m1: nat = p + 1;
    let n32: nat = p + 32;
    assert(m2 + 30 == n32);
    assert(1 + m1 == m2);
    let head = cval_from(src, b, m2);
    assert(cval_from(src, b, n32) == head * pow2(30) + cval_from(src, b + m2, 30));
    assert(head == cval_from(src, b, 1) * pow2(m1) + cval_from(src, b + 1, m1));
    assert(cval_from(src, b + 1, m1) == if !v { pow2(m1) - 1 } else { 0 });
    let c1 = cval_from(src, b, 1);
    assert(c1 * pow2(m1) == if v { pow2(m1) as int } else { 0 }) by (nonlinear_arith)
        requires
            c1 == if v { 1int } else { 0int },
    ;
    assert(pow2(m1) == 2 * q);
    if v {
        assert(cval_from(src, b, 1) == 1);
        assert(rel(src, b, p) == pow2(31)) by {
            assert((2 * q) * pow2(30) - pow2(31) * (q - 1) == pow2(31)) by (nonlinear_arith)
                requires
                    pow2(31) == 2 * pow2(30),
            ;
        }
    } else {
        assert(cval_from(src, b, 1) == 0);
        assert(head == 2 * q - 1);
        assert(rel(src, b, p) == pow2(30)) by {
            assert(head * pow2(30) == (2 * q - 1) * pow2(30)) by (nonlinear_arith)
                requires
                    head == 2 * q - 1,
            ;
            assert((2 * q - 1) * pow2(30) - pow2(31) * (q - 1) == pow2(30)) by (nonlinear_arith)
                requires
                    pow2(31) == 2 * pow2(30),
            ;
        }
    }
}

/// Working back from the end: the window lies in every interval the encoder
/// went through, and in every sub-interval it narrowed to.
proof fn lemma_windows_inside(cum0: Seq<u32>, cap: u32, syms: Seq<usize>, k: int)
    requires
        cum_wf(cum0, cap),
        within_budget(cum0, cap, syms.len()),
        symbols_in_range(syms, cum0.len()),
        0 <= k <= syms.len(),
    ensures
        inside(|i: int| padded(encoded_bits(cum0, cap, syms), i), enc_after(cum0, cap, syms.take(k))),
        k < syms.len() ==> inside(
            |i: int| padded(encoded_bits(cum0, cap, syms), i),
            enc_narrow(enc_after(cum0, cap, syms.take(k)), model_after(cum0, cap, syms.take(k)), syms[k] as int),
        ),
    decreases syms.len() - k,
{
    let src = |i: int| padded(encoded_bits(cum0, cap, syms), i);
    let last = enc_after(cum0, cap, syms);
    assert(prefix_of(last.bits, encoded_bits(cum0, cap, syms)));
    if k == syms.len() {
        assert(syms.take(k) =~= syms);
        lemma_enc_after_shape(cum0, cap, syms);
        lemma_flush_inside(last);
    } else {
        let pre = syms.take(k);
        let post = syms.take(k + 1);
        assert(post.drop_last() =~= pre);
        assert(symbols_in_range(pre, cum0.len()));
        assert(symbols_in_range(post, cum0.len()));
        lemma_windows_inside(cum0, cap, syms, k + 1);
        lemma_enc_after_shape(cum0, cap, pre);
        lemma_narrowing_ok(cum0, cap, pre, syms[k]);
        let n = enc_narrow(enc_after(cum0, cap, pre), model_after(cum0, cap, pre), syms[k] as int);
        assert(enc_scale(n) == enc_after(cum0, cap, post));
        lemma_after_prefix(cum0, cap, syms, k + 1);
        assert(agrees(src, enc_scale(n).bits)) by {
            assert forall|i: int| 0 <= i < enc_scale(n).bits.len() implies #[trigger] src(i) == enc_scale(n).bits[i] by {
                assert(enc_scale(n).bits[i] == last.bits[i]);
                assert(last.bits[i] == encoded_bits(cum0, cap, syms)[i]);
            }
        }
        lemma_scale(src, n);
    }
}

/// Working forward: after `k` steps the decoder is in the state that matches
/// the encoder's, and has decoded the first `k` symbols.
proof fn lemma_decoder_tracks(cum0: Seq<u32>, cap: u32, syms: Seq<usize>, k: int)
    requires
        cum_wf(cum0, cap),
        within_budget(cum0, cap, syms.len()),
        symbols_in_range(syms, cum0.len()),
        0 <= k <= syms.len(),
    ensures
        dec_run(|i: int| padded(encoded_bits(cum0, cap, syms), i), cum0, cap, k as nat) == (
            matching(|i: int| padded(encoded_bits(cum0, cap, syms), i), enc_after(cum0, cap, syms.take(k))),
            syms.take(k),
        ),
    decreases k,
{
    let src = |i: int| padded(encoded_bits(cum0, cap, syms), i);
    lemma2_to64();
    if k == 0 {
        assert(syms.take(0) =~= Seq::<usize>::empty());
        lemma_code_value_is_cval(src, 32);
        assert(pow2(0) == 1) by {
            lemma2_to64();
        }
        assert(dec_init(src) == matching(src, enc_init()));
    } else {
        let pre = syms.take(k - 1);
        let post = syms.take(k);
        assert(post.drop_last() =~= pre);
        assert(symbols_in_range(pre, cum0.len()));
        lemma_decoder_tracks(cum0, cap, syms, k - 1);
        lemma_windows_inside(cum0, cap, syms, k - 1);
        lemma_enc_after_shape(cum0, cap, pre);
        let s = syms[k - 1];
        lemma_narrowing_ok(cum0, cap, pre, s);
        lemma_model_after_wf(cum0, cap, pre);
        let e = enc_after(cum0, cap, pre);
        let cum = model_after(cum0, cap, pre);
        let n = enc_narrow(e, cum, s as int);
        let st = matching(src, e);
        let total = cum.last() as int;
        let r = e.high - e.low + 1;
        let d = window(src, e) - e.low;
        // the target lands in the slice of `s`
        lemma_narrow_bounds(r, cum[s as int] as int, cum[s as int + 1] as int, total);
        assert(cum[0] < cum.last());
        lemma_target_in_slice(d, r, total, cum[s as int] as int, cum[s as int + 1] as int);
        assert(dec_target(st, total) == ((d + 1) * total - 1) / r);
        assert(owns(cum, s as int, dec_target(st, total)));
        assert(owns(cum, owner(cum, dec_target(st, total)), dec_target(st, total)));
        lemma_owner_unique(cum, s as int, owner(cum, dec_target(st, total)), dec_target(st, total));
        // then both rescale alike
        assert(dec_narrow(st, cum, s as int) == matching(src, n));
        lemma_after_prefix(cum0, cap, syms, k);
        let fin = enc_after(cum0, cap, syms);
        assert(prefix_of(fin.bits, encoded_bits(cum0, cap, syms)));
        assert(agrees(src, enc_scale(n).bits)) by {
            assert(enc_scale(n) == enc_after(cum0, cap, post));
            assert forall|i: int| 0 <= i < enc_scale(n).bits.len() implies #[trigger] src(i) == enc_scale(n).bits[i] by {
                assert(enc_scale(n).bits[i] == fin.bits[i]);
                assert(fin.bits[i] == encoded_bits(cum0, cap, syms)[i]);
            }
        }
        lemma_scale(src, n);
        assert(enc_scale(n) == enc_after(cum0, cap, post));
        assert(pre.push(s) =~= post);
    }
}

/// Decoding the encoder's output, with the same starting model and the same
/// number of symbols, gives back the symbols that were encoded.
pub proof fn lemma_decode_encoded(cum0: Seq<u32>, cap: u32, syms: Seq<usize>, out: Seq<u8>)
    requires
        cum_wf(cum0, cap),
        within_budget(cum0, cap, syms.len()),
        symbols_in_range(syms, cum0.len()),
        packs(out, encoded_bits(cum0, cap, syms)),
    ensures
        decoded(byte_source(out), cum0, cap, syms.len()) == syms,
        model_after(cum0, cap, decoded(byte_source(out), cum0, cap, syms.len())) == model_after(
            cum0,
            cap,
            syms,
        ),
{
    let src = |i: int| padded(encoded_bits(cum0, cap, syms), i);
    assert(byte_source(out) =~= src) by {
        assert forall|i: int| #[trigger] byte_source(out)(i) == src(i) by {
            assert(crate::stages::bitio::bit_at(out, i) == padded(encoded_bits(cum0, cap, syms), i));
        }
    }
    lemma_decoder_tracks(cum0, cap, syms, syms.len() as int);
    assert(syms.take(syms.len() as int) =~= syms);
}

/// Reading a varint of a value below 2^64 at `at` gives the value and the
/// position after its bytes.
proof fn lemma_varint_at(b: Seq<u8>, at: int, n: nat)
    requires
        0 <= at,
        n < 0x1_0000_0000_0000_0000,
        at + varint_bytes(n).len() <= b.len(),
        b.subrange(at, at + varint_bytes(n).len()) == varint_bytes(n),
    ensures
        varint_size(b, at, 10) is Some,
        varint_at(b, at) == (n as u64, at + varint_bytes(n).len()),
{
    lemma2_to64();
    vstd::arithmetic::power2::lemma_pow2_strictly_increases(64, 70);
    lemma_varint_roundtrip(n, b, at, 10);
    vstd::arithmetic::div_mod::lemma_small_mod(n, 0x1_0000_0000_0000_0000);
}

/// The decoded stream of context `c` of a container is that context's
/// symbols.
proof fn lemma_stream_roundtrip(s: Seq<Symbol>, c: Context)
    ensures
        symbols_at(
            c,
            decoded(
                byte_source(coded_stream(s, c)),
                context_model(c),
                CONTEXT_CAP,
                stream_of(s, c).len(),
            ),
        ) == stream_of(s, c),
{
    let d = stream_of(s, c);
    let idx = indices_of(d);
    let cum = context_model(c);
    crate::stages::arithmetic::lemma_stream_of_len(s, c);
    assert(cum_wf(cum, CONTEXT_CAP)) by {
        assert(cum[0] == 0);
        assert(crate::stages::model::strictly_increasing(cum));
    }
    assert(symbols_in_range(idx, cum.len())) by {
        assert forall|i: int| 0 <= i < idx.len() implies idx[i] + 1 < cum.len() by {
            lemma_alphabet_roundtrip(d[i], c, 0);
        }
    }
    let bits = encoded_bits(cum, CONTEXT_CAP, idx);
    lemma_pack_bits_packs(bits);
    lemma_decode_encoded(cum, CONTEXT_CAP, idx, pack_bits(bits));
    assert(symbols_at(c, idx) =~= d) by {
        assert forall|i: int| 0 <= i < d.len() implies #[trigger] symbols_at(c, idx)[i] == d[i] by {
            lemma_alphabet_roundtrip(d[i], c, 0);
        }
    }
}

/// Reading back the container that `encode_symbols` writes gives its
/// dominant and its refinement symbols, each in order.
pub proof fn lemma_symbol_container_roundtrip(s: Seq<Symbol>)
    requires
        s.len() <= MAX_SYMBOLS,
        s.len() <= usize::MAX,
        symbol_container(s).len() <= usize::MAX,
    ensures
        container_ok(symbol_container(s)),
        container_streams(symbol_container(s)) == (
            stream_of(s, Context::Dominant),
            stream_of(s, Context::Refinement),
        ),
{
    let d = stream_of(s, Context::Dominant);
    let r = stream_of(s, Context::Refinement);
    let db = coded_stream(s, Context::Dominant);
    let rb = coded_stream(s, Context::Refinement);
    let v1 = varint_bytes(d.len());
    let v2 = varint_bytes(r.len());
    let v3 = varint_bytes(db.len());
    let b = symbol_container(s);
    assert(b == v1 + v2 + v3 + db + rb);
    crate::stages::arithmetic::lemma_stream_of_len(s, Context::Dominant);
    crate::stages::arithmetic::lemma_stream_of_len(s, Context::Refinement);
    let p1 = v1.len() as int;
    let p2 = p1 + v2.len();
    let p3 = p2 + v3.len();
    let mid = p3 + db.len();
    assert(b.subrange(0, p1) =~= v1);
    assert(b.subrange(p1, p2) =~= v2);
    assert(b.subrange(p2, p3) =~= v3);
    assert(b.subrange(p3, mid) =~= db);
    assert(b.subrange(mid, b.len() as int) =~= rb);
    lemma_varint_at(b, 0, d.len());
    lemma_varint_at(b, p1, r.len());
    lemma_varint_at(b, p2, db.len());
    assert(container_header(b) == (d.len() as u64, r.len() as u64, db.len() as u64, p3));
    lemma_stream_roundtrip(s, Context::Dominant);
    lemma_stream_roundtrip(s, Context::Refinement);
}

} // verus!
