//! Why rebuilding from the zerotree streams gives back the coefficients.
//!
//! After the pass at threshold `t` the decoder knows every magnitude rounded
//! down to a multiple of `t`, and the sign of every magnitude of at least `t`.
//! The first pass starts from nothing known, which is every magnitude rounded
//! down to a multiple of twice the start threshold; the last pass, at 1,
//! leaves every magnitude known.
use vstd::prelude::*;
use vstd::arithmetic::power2::{pow2, lemma2_to64, lemma_pow2_unfold, lemma_pow2_pos};
use crate::stages::arithmetic::{context_of, stream_of, Context};
use crate::stages::zerotree::{
    big, dec_dom, dec_passes, dec_ref, dec_start, dec_values, enc_dom, enc_ref, ezw_symbols,
    inherited, is_desc, lemma_parents_ok, mag, parents, parents_ok, rebuilt, sign_symbol,
    start_threshold_ok, sym_at, ZState,
};
use crate::Symbol;

verus! {

/// `part` lies in `s` from position `pos` on.
pub open spec fn placed(s: Seq<Symbol>, pos: int, part: Seq<Symbol>) -> bool {
    &&& 0 <= pos
    &&& pos + part.len() <= s.len()
    &&& forall|j: int| 0 <= j < part.len() ==> #[trigger] s[pos + j] == part[j]
}

/// The dominant symbols of the passes from `t` down to 1.
pub open spec fn dom_seq(data: Seq<i16>, par: Seq<Option<usize>>, t: nat) -> Seq<Symbol>
    decreases t,
{
    if t == 0 {
        Seq::empty()
    } else {
        enc_dom(data, par, t as int, data.len()).1 + dom_seq(data, par, t / 2)
    }
}

/// The refinement symbols of the passes from `t` down to 1.
pub open spec fn ref_seq(data: Seq<i16>, t: nat) -> Seq<Symbol>
    decreases t,
{
    if t == 0 {
        Seq::empty()
    } else {
        enc_ref(data, t as int, data.len()) + ref_seq(data, t / 2)
    }
}

/// Every magnitude is known rounded down to a multiple of `t`, and every
/// sign of a magnitude of at least `t`.
pub open spec fn known(data: Seq<i16>, st: ZState, t: int) -> bool {
    &&& st.r.len() == data.len()
    &&& st.neg.len() == data.len()
    &&& forall|i: int| 0 <= i < data.len() ==> #[trigger] st.r[i] as int == (mag(data[i]) / t) * t
    &&& forall|i: int| 0 <= i < data.len() && mag(data[i]) >= t ==> #[trigger] st.neg[i] == (data[i] < 0)
}

/// What the dominant pass at `t` leaves known of a magnitude `m`.
pub open spec fn after_dominant(m: int, t: int) -> int {
    if m >= 2 * t {
        (m / (2 * t)) * (2 * t)
    } else if m >= t {
        t
    } else {
        0
    }
}

proof fn lemma_round(m: int, t: int)
    requires
        0 <= m,
        t >= 1,
    ensures
        (m / (2 * t)) * (2 * t) >= 2 * t <==> m >= 2 * t,
        m < 2 * t ==> (m / (2 * t)) * (2 * t) == 0,
        (m / t) * t == (m / (2 * t)) * (2 * t) + ((m / t) % 2) * t,
        (m / t) % 2 == 1 ==> (m / t) * t == (m / (2 * t)) * (2 * t) + t,
        (m / t) % 2 != 1 ==> (m / t) * t == (m / (2 * t)) * (2 * t),
        t <= m < 2 * t ==> (m / t) * t == t,
        m < t ==> (m / t) * t == 0,
        0 <= (m / t) * t <= m,
        0 <= (m / (2 * t)) * (2 * t) <= m,
{
    let tt = 2 * t;
    vstd::arithmetic::div_mod::lemma_fundamental_div_mod(m, tt);
    vstd::arithmetic::div_mod::lemma_fundamental_div_mod(m, t);
    vstd::arithmetic::div_mod::lemma_div_denominator(m, t, 2);
    let a = m / t;
    vstd::arithmetic::div_mod::lemma_fundamental_div_mod(a, 2);
    assert(m / tt == a / 2);
    assert(0 <= m % tt < tt);
    assert(0 <= m % t < t);
    assert(a * t == (a / 2) * tt + (a % 2) * t) by (nonlinear_arith)
        requires
            a == 2 * (a / 2) + a % 2,
            tt == 2 * t,
    ;
    if a % 2 == 1 {
        assert((a % 2) * t == t) by (nonlinear_arith)
            requires
                a % 2 == 1,
        ;
    } else {
        assert((a % 2) * t == 0) by (nonlinear_arith)
            requires
                a % 2 == 0,
        ;
    }
    assert((m / tt) * tt == tt * (m / tt)) by (nonlinear_arith);
    assert((m / t) * t == t * (m / t)) by (nonlinear_arith);
    if m >= tt {
        assert(m / tt >= 1) by (nonlinear_arith)
            requires
                m == tt * (m / tt) + m % tt,
                m % tt < tt,
                m >= tt,
                tt > 0,
        ;
        assert((m / tt) * tt >= tt) by (nonlinear_arith)
            requires
                m / tt >= 1,
                tt > 0,
        ;
    } else {
        assert(m / tt == 0) by (nonlinear_arith)
            requires
                m == tt * (m / tt) + m % tt,
                0 <= m % tt,
                0 <= m < tt,
        ;
    }
    if t <= m < tt {
        assert(m / t == 1) by (nonlinear_arith)
            requires
                m == t * (m / t) + m % t,
                0 <= m % t < t,
                t <= m < 2 * t,
        ;
        assert((m / t) * t == t) by (nonlinear_arith)
            requires
                m / t == 1,
        ;
    }
    if m < t {
        assert(m / t == 0) by (nonlinear_arith)
            requires
                m == t * (m / t) + m % t,
                0 <= m % t,
                0 <= m < t,
        ;
        assert((m / t) * t == 0) by (nonlinear_arith)
            requires
                m / t == 0,
        ;
    }
    assert(m / t >= 0) by (nonlinear_arith)
        requires
            m == t * (m / t) + m % t,
            m % t < t,
            m >= 0,
            t > 0,
    ;
    assert(m / tt >= 0) by (nonlinear_arith)
        requires
            m == tt * (m / tt) + m % tt,
            m % tt < tt,
            m >= 0,
            tt > 0,
    ;
}

proof fn lemma_enc_dom_shape(data: Seq<i16>, par: Seq<Option<usize>>, t: int, k: nat, n: nat)
    requires
        k <= n,
    ensures
        enc_dom(data, par, t, k).0.len() == k,
        enc_dom(data, par, t, k).1.len() <= enc_dom(data, par, t, n).1.len(),
        forall|j: int|
            0 <= j < enc_dom(data, par, t, k).1.len() ==> #[trigger] enc_dom(data, par, t, k).1[j] == enc_dom(
                data,
                par,
                t,
                n,
            ).1[j],
        forall|j: int|
            0 <= j < enc_dom(data, par, t, k).1.len() ==> context_of(
                #[trigger] enc_dom(data, par, t, k).1[j],
            ) == Context::Dominant,
    decreases n,
{
    if k < n {
        lemma_enc_dom_shape(data, par, t, k, (n - 1) as nat);
        lemma_enc_dom_shape(data, par, t, (n - 1) as nat, (n - 1) as nat);
    } else if n > 0 {
        lemma_enc_dom_shape(data, par, t, (n - 1) as nat, (n - 1) as nat);
    }
}

proof fn lemma_enc_ref_shape(data: Seq<i16>, t: int, k: nat, n: nat)
    requires
        k <= n,
    ensures
        enc_ref(data, t, k).len() <= enc_ref(data, t, n).len(),
        forall|j: int|
            0 <= j < enc_ref(data, t, k).len() ==> #[trigger] enc_ref(data, t, k)[j] == enc_ref(data, t, n)[j],
        forall|j: int|
            0 <= j < enc_ref(data, t, k).len() ==> context_of(#[trigger] enc_ref(data, t, k)[j])
                == Context::Refinement,
    decreases n,
{
    if k < n {
        lemma_enc_ref_shape(data, t, k, (n - 1) as nat);
        lemma_enc_ref_shape(data, t, (n - 1) as nat, (n - 1) as nat);
    } else if n > 0 {
        lemma_enc_ref_shape(data, t, (n - 1) as nat, (n - 1) as nat);
    }
}

/// A coefficient in a zerotree of the encoder's dominant pass has nothing
/// large in its subtree.
proof fn lemma_zerotree_small(data: Seq<i16>, par: Seq<Option<usize>>, t: int, k: nat)
    requires
        parents_ok(par),
        par.len() == data.len(),
        data.len() <= usize::MAX,
        k <= data.len(),
    ensures
        forall|i: int| 0 <= i < k && #[trigger] enc_dom(data, par, t, k).0[i] ==> !big(data, par, t, i),
    decreases k,
{
    if k > 0 {
        let km = (k - 1) as nat;
        lemma_zerotree_small(data, par, t, km);
        lemma_enc_dom_shape(data, par, t, km, km);
        let q = enc_dom(data, par, t, km).0;
        let i = k - 1;
        if inherited(par, q, i) && big(data, par, t, i) {
            crate::stages::zerotree::lemma_big_parent(data, par, t, i);
            let p = par[i]->0 as int;
            assert(q[p]);
        }
        assert forall|j: int| 0 <= j < k && #[trigger] enc_dom(data, par, t, k).0[j] implies !big(data, par, t, j) by {
            if j < i {
                assert(enc_dom(data, par, t, k).0[j] == q[j]);
            }
        }
    }
}

proof fn lemma_not_big_small(data: Seq<i16>, par: Seq<Option<usize>>, t: int, i: int)
    requires
        0 <= i < data.len(),
        !big(data, par, t, i),
    ensures
        mag(data[i]) < t,
{
    assert(is_desc(par, i, i));
}

/// The decoder's dominant pass reads exactly the encoder's dominant symbols
/// and learns what they say.
#[verifier::spinoff_prover]
#[verifier::rlimit(40)]
proof fn lemma_dom_pass(data: Seq<i16>, par: Seq<Option<usize>>, t: int, st: ZState, dom: Seq<Symbol>, k: nat)
    requires
        parents_ok(par),
        par.len() == data.len(),
        data.len() <= usize::MAX,
        1 <= t <= 32768,
        k <= data.len(),
        st.r.len() == data.len(),
        st.neg.len() == data.len(),
        forall|i: int| 0 <= i < data.len() ==> #[trigger] st.r[i] as int == (mag(data[i]) / (2 * t)) * (2 * t),
        forall|i: int| 0 <= i < data.len() && mag(data[i]) >= 2 * t ==> #[trigger] st.neg[i] == (data[i] < 0),
        placed(dom, st.pos, enc_dom(data, par, t, data.len()).1),
    ensures
        ({
            let z = dec_dom(dom, par, t, st, k);
            &&& z.q == enc_dom(data, par, t, k).0
            &&& z.pos == st.pos + enc_dom(data, par, t, k).1.len()
            &&& z.rpos == st.rpos
            &&& z.r.len() == data.len()
            &&& z.neg.len() == data.len()
            &&& forall|i: int| 0 <= i < k ==> #[trigger] z.r[i] as int == after_dominant(mag(data[i]), t)
            &&& forall|i: int| 0 <= i < k && mag(data[i]) >= t ==> #[trigger] z.neg[i] == (data[i] < 0)
            &&& forall|i: int| k <= i < data.len() ==> #[trigger] z.r[i] == st.r[i] && z.neg[i] == st.neg[i]
        }),
    decreases k,
{
    if k > 0 {
        let km = (k - 1) as nat;
        let n = data.len();
        lemma_dom_pass(data, par, t, st, dom, km);
        lemma_enc_dom_shape(data, par, t, km, n);
        lemma_enc_dom_shape(data, par, t, k, n);
        lemma_zerotree_small(data, par, t, km);
        let z = dec_dom(dom, par, t, st, km);
        let (q, out) = enc_dom(data, par, t, km);
        let i = k - 1;
        let m = mag(data[i]);
        lemma_round(m, t);
        if inherited(par, q, i) {
            let p = par[i]->0 as int;
            assert(q[p]);
            assert(!big(data, par, t, p));
            if big(data, par, t, i) {
                crate::stages::zerotree::lemma_big_parent(data, par, t, i);
            }
            lemma_not_big_small(data, par, t, i);
        } else if m < 2 * t {
            let sy = enc_dom(data, par, t, k).1[out.len() as int];
            assert(enc_dom(data, par, t, n).1[out.len() as int] == sy);
            assert(dom[st.pos + out.len()] == sy);
            assert(sym_at(dom, z.pos) == sy);
            if m < t && !big(data, par, t, i) {
                assert(sy == Symbol::ZeroTree);
            }
            if m < t && big(data, par, t, i) {
                assert(sy == Symbol::IsolatedZero);
            }
            if m >= t {
                assert(sy == sign_symbol(data[i]));
            }
        }
        let z2 = dec_dom(dom, par, t, st, k);
        assert forall|j: int| 0 <= j < k implies #[trigger] z2.r[j] as int == after_dominant(mag(data[j]), t) by {
            if j < i {
                assert(z2.r[j] == z.r[j]);
            }
        }
        assert forall|j: int| 0 <= j < k && mag(data[j]) >= t implies #[trigger] z2.neg[j] == (data[j] < 0) by {
            if j < i {
                assert(z2.neg[j] == z.neg[j]);
            }
        }
        assert(z2.q =~= enc_dom(data, par, t, k).0);
        assert(z2.pos == st.pos + enc_dom(data, par, t, k).1.len());
        assert(z2.rpos == st.rpos);
        assert(z2.r.len() == data.len() && z2.neg.len() == data.len());
        assert forall|j: int| k <= j < data.len() implies #[trigger] z2.r[j] == st.r[j] && z2.neg[j] == st.neg[j] by {
            assert(z2.r[j] == z.r[j] && z2.neg[j] == z.neg[j]);
        }
    } else {
        assert(dec_dom(dom, par, t, st, 0).q =~= enc_dom(data, par, t, 0).0);
    }
}

/// The decoder's refinement pass reads exactly the encoder's refinement
/// symbols and completes every magnitude down to a multiple of `t`.
proof fn lemma_ref_pass(data: Seq<i16>, t: int, st: ZState, rf: Seq<Symbol>, k: nat)
    requires
        1 <= t <= 32768,
        k <= data.len(),
        st.r.len() == data.len(),
        forall|i: int| 0 <= i < data.len() ==> #[trigger] st.r[i] as int == after_dominant(mag(data[i]), t),
        placed(rf, st.rpos, enc_ref(data, t, data.len())),
    ensures
        ({
            let z = dec_ref(rf, t, st, k);
            &&& z.rpos == st.rpos + enc_ref(data, t, k).len()
            &&& z.pos == st.pos
            &&& z.q == st.q
            &&& z.neg == st.neg
            &&& z.r.len() == data.len()
            &&& forall|i: int| 0 <= i < k ==> #[trigger] z.r[i] as int == (mag(data[i]) / t) * t
            &&& forall|i: int| k <= i < data.len() ==> #[trigger] z.r[i] == st.r[i]
        }),
    decreases k,
{
    if k > 0 {
        let km = (k - 1) as nat;
        let n = data.len();
        lemma_ref_pass(data, t, st, rf, km);
        lemma_enc_ref_shape(data, t, km, n);
        lemma_enc_ref_shape(data, t, k, n);
        let z = dec_ref(rf, t, st, km);
        let i = k - 1;
        let m = mag(data[i]);
        lemma_round(m, t);
        if m >= 2 * t {
            let out = enc_ref(data, t, km);
            let sy = enc_ref(data, t, k)[out.len() as int];
            assert(enc_ref(data, t, n)[out.len() as int] == sy);
            assert(rf[st.rpos + out.len()] == sy);
            assert(sym_at(rf, z.rpos) == sy);
        }
        let z2 = dec_ref(rf, t, st, k);
        assert forall|j: int| 0 <= j < k implies #[trigger] z2.r[j] as int == (mag(data[j]) / t) * t by {
            if j < i {
                assert(z2.r[j] == z.r[j]);
            } else {
                assert(z.r[i] == st.r[i]);
                assert(m <= 32768);
                if m >= 2 * t {
                    let out = enc_ref(data, t, km);
                    assert(enc_ref(data, t, k) == out.push(
                        if (m / t) % 2 == 1 {
                            Symbol::RefineOne
                        } else {
                            Symbol::RefineZero
                        },
                    ));
                    if (m / t) % 2 == 1 {
                        assert(sym_at(rf, z.rpos) == Symbol::RefineOne);
                    } else {
                        assert(sym_at(rf, z.rpos) == Symbol::RefineZero);
                    }
                }
            }
        }
    }
}

/// Over the passes from `pow2(k)` down to 1, the decoder ends knowing every
/// coefficient.
proof fn lemma_passes(data: Seq<i16>, par: Seq<Option<usize>>, dom: Seq<Symbol>, rf: Seq<Symbol>, k: nat, st: ZState)
    requires
        parents_ok(par),
        par.len() == data.len(),
        data.len() <= usize::MAX,
        pow2(k) <= 32768,
        known(data, st, (2 * pow2(k)) as int),
        placed(dom, st.pos, dom_seq(data, par, pow2(k))),
        placed(rf, st.rpos, ref_seq(data, pow2(k))),
    ensures
        known(data, dec_passes(dom, rf, par, data.len(), pow2(k), st), 1),
    decreases k,
{
    let t = pow2(k);
    let n = data.len();
    lemma_pow2_pos(k);
    let ed = enc_dom(data, par, t as int, n).1;
    let er = enc_ref(data, t as int, n);
    assert(placed(dom, st.pos, ed)) by {
        assert forall|j: int| 0 <= j < ed.len() implies #[trigger] dom[st.pos + j] == ed[j] by {
            assert(dom_seq(data, par, t)[j] == ed[j]);
        }
    }
    lemma_dom_pass(data, par, t as int, st, dom, n);
    let s1 = dec_dom(dom, par, t as int, st, n);
    assert(placed(rf, s1.rpos, er)) by {
        assert forall|j: int| 0 <= j < er.len() implies #[trigger] rf[s1.rpos + j] == er[j] by {
            assert(ref_seq(data, t)[j] == er[j]);
        }
    }
    lemma_ref_pass(data, t as int, s1, rf, n);
    let s2 = dec_ref(rf, t as int, s1, n);
    assert(known(data, s2, t as int));
    assert(dec_passes(dom, rf, par, n, t, st) == dec_passes(dom, rf, par, n, t / 2, s2));
    if k == 0 {
        lemma2_to64();
        assert(t / 2 == 0);
        assert(dec_passes(dom, rf, par, n, 0, s2) == s2);
    } else {
        lemma_pow2_unfold(k);
        let kk = (k - 1) as nat;
        assert(t / 2 == pow2(kk));
        let ds = dom_seq(data, par, t / 2);
        let rs = ref_seq(data, t / 2);
        assert(placed(dom, s2.pos, ds)) by {
            assert forall|j: int| 0 <= j < ds.len() implies #[trigger] dom[s2.pos + j] == ds[j] by {
                assert(dom_seq(data, par, t)[ed.len() + j] == ds[j]);
                assert(dom[st.pos + (ed.len() + j)] == dom_seq(data, par, t)[ed.len() + j]);
            }
        }
        assert(placed(rf, s2.rpos, rs)) by {
            assert forall|j: int| 0 <= j < rs.len() implies #[trigger] rf[s2.rpos + j] == rs[j] by {
                assert(ref_seq(data, t)[er.len() + j] == rs[j]);
                assert(rf[st.rpos + (er.len() + j)] == ref_seq(data, t)[er.len() + j]);
            }
        }
        assert(2 * pow2(kk) == t);
        lemma_passes(data, par, dom, rf, kk, s2);
    }
}

proof fn lemma_stream_concat(a: Seq<Symbol>, b: Seq<Symbol>, c: Context)
    ensures
        stream_of(a + b, c) == stream_of(a, c) + stream_of(b, c),
    decreases b.len(),
{
    if b.len() == 0 {
        assert(a + b =~= a);
        assert(stream_of(a, c) + stream_of(b, c) =~= stream_of(a, c));
    } else {
        lemma_stream_concat(a, b.drop_last(), c);
        assert((a + b).drop_last() =~= a + b.drop_last());
        assert((a + b).last() == b.last());
        if context_of(b.last()) == c {
            assert(stream_of(a, c) + stream_of(b, c) =~= (stream_of(a, c) + stream_of(b.drop_last(), c)).push(b.last()));
        }
    }
}

proof fn lemma_stream_uniform(a: Seq<Symbol>, c: Context, d: Context)
    requires
        forall|j: int| 0 <= j < a.len() ==> context_of(#[trigger] a[j]) == c,
    ensures
        stream_of(a, c) == a,
        c != d ==> stream_of(a, d) == Seq::<Symbol>::empty(),
    decreases a.len(),
{
    if a.len() > 0 {
        lemma_stream_uniform(a.drop_last(), c, d);
        assert(a.drop_last().push(a.last()) =~= a);
    }
}

proof fn lemma_streams_of_symbols(data: Seq<i16>, par: Seq<Option<usize>>, t: nat)
    ensures
        stream_of(ezw_symbols(data, par, t), Context::Dominant) == dom_seq(data, par, t),
        stream_of(ezw_symbols(data, par, t), Context::Refinement) == ref_seq(data, t),
    decreases t,
{
    if t > 0 {
        let n = data.len();
        let a = enc_dom(data, par, t as int, n).1;
        let b = enc_ref(data, t as int, n);
        let rest = ezw_symbols(data, par, t / 2);
        lemma_streams_of_symbols(data, par, t / 2);
        lemma_enc_dom_shape(data, par, t as int, n, n);
        lemma_enc_ref_shape(data, t as int, n, n);
        lemma_stream_uniform(a, Context::Dominant, Context::Refinement);
        lemma_stream_uniform(b, Context::Refinement, Context::Dominant);
        lemma_stream_concat(a + b, rest, Context::Dominant);
        lemma_stream_concat(a + b, rest, Context::Refinement);
        lemma_stream_concat(a, b, Context::Dominant);
        lemma_stream_concat(a, b, Context::Refinement);
        assert(a + Seq::<Symbol>::empty() =~= a);
        assert(Seq::<Symbol>::empty() + b =~= b);
    }
}

/// Rebuilding from the dominant and refinement streams of the symbols that
/// `build` emits, with its start threshold, gives back every coefficient.
pub proof fn lemma_rebuild_exact(data: Seq<i16>, w: usize, h: usize, levels: u8, t0: nat)
    requires
        data.len() == w * h,
        w * h <= usize::MAX,
        start_threshold_ok(data, t0),
    ensures
        ({
            let syms = ezw_symbols(data, parents(w, h, levels, data.len()), t0);
            rebuilt(
                stream_of(syms, Context::Dominant),
                stream_of(syms, Context::Refinement),
                t0,
                w,
                h,
                levels,
            ) == data
        }),
{
    let n = data.len();
    let par = parents(w, h, levels, n);
    lemma_parents_ok(w, h, levels, n);
    let syms = ezw_symbols(data, par, t0);
    let dom = stream_of(syms, Context::Dominant);
    let rf = stream_of(syms, Context::Refinement);
    lemma_streams_of_symbols(data, par, t0);
    let st = dec_start(n);
    let fin = dec_passes(dom, rf, par, n, t0, st);
    if t0 == 0 {
        assert forall|i: int| 0 <= i < n implies #[trigger] dec_values(fin, n)[i] == data[i] by {
            assert(mag(data[i]) == 0);
        }
    } else {
        let k = choose|k: nat| t0 == pow2(k);
        let iw = choose|i: int| 0 <= i < data.len() && #[trigger] mag(data[i]) >= t0;
        assert(t0 <= 32768);
        assert(known(data, st, (2 * pow2(k)) as int)) by {
            assert forall|i: int| 0 <= i < n implies #[trigger] st.r[i] as int == (mag(data[i]) / (2 * pow2(k) as int)) * (2 * pow2(k) as int) by {
                lemma_round(mag(data[i]), t0 as int);
            }
        }
        assert(placed(dom, 0, dom_seq(data, par, pow2(k))));
        assert(placed(rf, 0, ref_seq(data, pow2(k))));
        lemma_passes(data, par, dom, rf, k, st);
        assert forall|i: int| 0 <= i < n implies #[trigger] dec_values(fin, n)[i] == data[i] by {
            assert(mag(data[i]) / 1 == mag(data[i]));
        }
    }
    assert(dec_values(fin, n) =~= data);
}

} // verus!
