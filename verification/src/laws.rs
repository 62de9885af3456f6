//! The laws of the circle FFT, stated over the same specification
//! functions that the executable functions' contracts use: evaluation
//! undoes interpolation, and interpolating a low-degree extension returns
//! the original coefficients zero-padded.

use vstd::prelude::*;
use vstd::arithmetic::div_mod::{
    lemma_add_mod_noop, lemma_mul_mod_noop_general, lemma_small_mod, lemma_sub_mod_noop,
};
use vstd::arithmetic::power2::pow2;
use crate::cfft::{
    spec_twiddle_layer,
    apply_dif_layers, apply_dit_layers_rev, dif_layer, dit_layer,
    all_canon, inv_layers, lemma_twiddle_layer_len, scale_seq, spec_twiddles, twiddles_invertible,
    zero_pad,
};
use crate::domain::CircleDomain;
use crate::field::{fadd, fmul, fpow, fsub, finv, finv_exists, P};

verus! {

// ---------------------------------------------------------------------------
// Modular algebra helpers.
// ---------------------------------------------------------------------------

/// Multiplying by `t` undoes multiplying by its inverse.
proof fn lemma_inv_cancel(t: int, it: int, s: int)
    requires
        (it * t) % (P as int) == 1,
    ensures
        fmul(t, fmul(s, it)) == s % (P as int),
{
    let p = P as int;
    lemma_mul_mod_noop_general(t, s * it, p);
    assert(fmul(t, fmul(s, it)) == (t * (s * it)) % p);
    assert(t * (s * it) == (it * t) * s) by (nonlinear_arith);
    lemma_mul_mod_noop_general(it * t, s, p);
    assert(((it * t) * s) % p == (((it * t) % p) * s) % p);
    assert((1 * s) % p == s % p);
}

/// The butterfly sum of sum and difference is the double.
proof fn lemma_sum_diff(a: int, b: int)
    ensures
        fadd(fadd(a, b), fsub(a, b)) == (2 * a) % (P as int),
        fsub(fadd(a, b), fsub(a, b)) == (2 * b) % (P as int),
{
    let p = P as int;
    lemma_add_mod_noop(a + b, a - b, p);
    lemma_sub_mod_noop(a + b, a - b, p);
}

/// A decimation-in-time butterfly followed by the inverse-twiddled
/// decimation-in-frequency butterfly doubles both entries.
proof fn lemma_dif_undoes_dit(a: int, b: int, t: int, it: int)
    requires
        (it * t) % (P as int) == 1,
    ensures
        fadd(fadd(a, fmul(t, b)), fsub(a, fmul(t, b))) == fmul(a, 2),
        fmul(fsub(fadd(a, fmul(t, b)), fsub(a, fmul(t, b))), it) == fmul(b, 2),
{
    let p = P as int;
    let x = fmul(t, b);
    lemma_sum_diff(a, x);
    assert((2 * a) % p == fmul(a, 2)) by {
        assert(2 * a == a * 2);
    };
    // second: (2x) % p multiplied by it
    assert(fsub(fadd(a, x), fsub(a, x)) == (2 * x) % p);
    lemma_mul_mod_noop_general(2 * x, it, p);
    assert(fmul((2 * x) % p, it) == ((2 * x) * it) % p);
    lemma_mul_mod_noop_general(t, b, p);
    assert((2 * ((t * b) % p)) % p == (2 * (t * b)) % p) by {
        lemma_mul_mod_noop_general(2, t * b, p);
    };
    assert(((2 * x) * it) % p == ((2 * (t * b) % p) * it) % p) by {
        assert(2 * x == 2 * ((t * b) % p));
    };
    assert(((2 * (t * b) % p) * it) % p == ((2 * (t * b)) * it) % p) by {
        lemma_mul_mod_noop_general(2 * (t * b), it, p);
    };
    assert((2 * (t * b)) * it == (it * t) * (2 * b)) by (nonlinear_arith);
    lemma_mul_mod_noop_general(it * t, 2 * b, p);
    assert(((it * t) * (2 * b)) % p == (((it * t) % p) * (2 * b)) % p);
    assert((1 * (2 * b)) % p == (2 * b) % p);
    assert((2 * b) % p == fmul(b, 2)) by {
        assert(2 * b == b * 2);
    };
}

/// A decimation-in-frequency butterfly with inverse twiddle followed by
/// the decimation-in-time butterfly doubles both entries.
proof fn lemma_dit_undoes_dif(a: int, b: int, t: int, it: int)
    requires
        (it * t) % (P as int) == 1,
    ensures
        fadd(fadd(a, b), fmul(t, fmul(fsub(a, b), it))) == fmul(a, 2),
        fsub(fadd(a, b), fmul(t, fmul(fsub(a, b), it))) == fmul(b, 2),
{
    let p = P as int;
    lemma_inv_cancel(t, it, fsub(a, b));
    assert(fmul(t, fmul(fsub(a, b), it)) == fsub(a, b)) by {
        assert(fsub(a, b) % p == fsub(a, b));
    };
    lemma_sum_diff(a, b);
    assert((2 * a) % p == fmul(a, 2)) by {
        assert(2 * a == a * 2);
    };
    assert((2 * b) % p == fmul(b, 2)) by {
        assert(2 * b == b * 2);
    };
}

/// Scaling commutes through a decimation-in-time butterfly.
#[verifier::rlimit(60)]
proof fn lemma_dit_scale(a: int, b: int, t: int, c: int)
    ensures
        fadd(fmul(a, c), fmul(t, fmul(b, c))) == fmul(fadd(a, fmul(t, b)), c),
        fsub(fmul(a, c), fmul(t, fmul(b, c))) == fmul(fsub(a, fmul(t, b)), c),
{
    let p = P as int;
    // both sides reduce to (a*c + t*b*c) % p and (a*c - t*b*c) % p
    lemma_mul_mod_noop_general(t, b * c, p);
    assert(fmul(t, fmul(b, c)) == (t * (b * c)) % p) by {
        lemma_mul_mod_noop_general(t, (b * c) % p, p);
        lemma_mul_mod_noop_general(t, b * c, p);
    };
    lemma_add_mod_noop(a * c, t * (b * c), p);
    lemma_sub_mod_noop(a * c, t * (b * c), p);
    assert(fadd(fmul(a, c), fmul(t, fmul(b, c))) == (a * c + t * (b * c)) % p);
    assert(fsub(fmul(a, c), fmul(t, fmul(b, c))) == (a * c - t * (b * c)) % p);
    lemma_mul_mod_noop_general(a + fmul(t, b), c, p);
    lemma_mul_mod_noop_general(a + t * b, c, p);
    assert(fmul(fadd(a, fmul(t, b)), c) == ((a + fmul(t, b)) * c) % p) by {
        lemma_mul_mod_noop_general(fadd(a, fmul(t, b)), c, p);
    };
    assert(fmul(t, b) % p == fmul(t, b));
    assert(((a + fmul(t, b)) * c) % p == ((a + t * b) * c) % p) by {
        lemma_mul_mod_noop_general(a + fmul(t, b), c, p);
        lemma_add_mod_noop(a, t * b, p);
        lemma_add_mod_noop(a, fmul(t, b), p);
        assert((a + fmul(t, b)) % p == (a + t * b) % p);
        lemma_mul_mod_noop_general(a + t * b, c, p);
    };
    assert((a + t * b) * c == a * c + t * (b * c)) by (nonlinear_arith);
    assert(fmul(fsub(a, fmul(t, b)), c) == ((a - fmul(t, b)) * c) % p) by {
        lemma_mul_mod_noop_general(a - fmul(t, b), c, p);
    };
    assert(((a - fmul(t, b)) * c) % p == ((a - t * b) * c) % p) by {
        lemma_sub_mod_noop(a, t * b, p);
        lemma_sub_mod_noop(a, fmul(t, b), p);
        assert((a - fmul(t, b)) % p == (a - t * b) % p);
        lemma_mul_mod_noop_general(a - fmul(t, b), c, p);
        lemma_mul_mod_noop_general(a - t * b, c, p);
    };
    assert((a - t * b) * c == a * c - t * (b * c)) by (nonlinear_arith);
}

/// Scaling commutes through a decimation-in-frequency butterfly.
proof fn lemma_dif_scale(a: int, b: int, t: int, c: int)
    ensures
        fadd(fmul(a, c), fmul(b, c)) == fmul(fadd(a, b), c),
        fmul(fsub(fmul(a, c), fmul(b, c)), t) == fmul(fmul(fsub(a, b), t), c),
{
    let p = P as int;
    lemma_add_mod_noop(a * c, b * c, p);
    assert((a + b) * c == a * c + b * c) by (nonlinear_arith);
    assert(fmul(fadd(a, b), c) == ((a + b) * c) % p) by {
        lemma_mul_mod_noop_general(a + b, c, p);
    };
    // difference side
    lemma_sub_mod_noop(a * c, b * c, p);
    assert(fsub(fmul(a, c), fmul(b, c)) == (a * c - b * c) % p);
    assert(fmul(fsub(fmul(a, c), fmul(b, c)), t) == ((a * c - b * c) * t) % p) by {
        lemma_mul_mod_noop_general(a * c - b * c, t, p);
    };
    assert(fmul(fmul(fsub(a, b), t), c) == (((a - b) * t) * c) % p) by {
        lemma_mul_mod_noop_general(a - b, t, p);
        lemma_mul_mod_noop_general((a - b) * t, c, p);
    };
    assert((a * c - b * c) * t == ((a - b) * t) * c) by (nonlinear_arith);
}

/// Two scalings compose into one.
proof fn lemma_scale_compose(x: int, c1: int, c2: int)
    ensures
        fmul(fmul(x, c1), c2) == fmul(x, fmul(c1, c2)),
{
    let p = P as int;
    lemma_mul_mod_noop_general(x * c1, c2, p);
    lemma_mul_mod_noop_general(x, c1 * c2, p);
    assert((x * c1) * c2 == x * (c1 * c2)) by (nonlinear_arith);
}

/// `2^e` as a field element equals the integer power of two while it
/// stays below `P`.
proof fn lemma_fpow_two(e: nat)
    requires
        e <= 30,
    ensures
        fpow(2, e) == pow2(e),
    decreases e,
{
    vstd::arithmetic::power2::lemma2_to64();
    if e == 0 {
        assert(pow2(0) == 1);
    } else {
        lemma_fpow_two((e - 1) as nat);
        vstd::arithmetic::power2::lemma_pow2_unfold(e);
        assert(pow2(e) < P) by {
            if e < 31 {
                vstd::arithmetic::power2::lemma_pow2_strictly_increases(e, 31);
            }
            assert(pow2(31) == 0x8000_0000);
        };
        lemma_small_mod(pow2(e), P as nat);
    }
}

// ---------------------------------------------------------------------------
// Layer-level lemmas.
// ---------------------------------------------------------------------------

/// The block structure a butterfly layer needs: the twiddles divide the
/// vector into even-sized blocks.
pub open spec fn layer_shape(vlen: nat, tslen: nat) -> bool {
    &&& tslen >= 1
    &&& vlen % tslen == 0
    &&& (vlen / tslen) % 2 == 0
    &&& vlen / tslen >= 2
}

/// Every layer of a table fits the vector.
pub open spec fn layers_shape(vlen: nat, tss: Seq<Seq<int>>) -> bool {
    forall|k: int| 0 <= k < tss.len() ==> layer_shape(vlen, (#[trigger] tss[k]).len())
}

/// Index bookkeeping for one butterfly position: its block, offset and
/// partner.
proof fn lemma_block_of(i: int, vlen: int, tslen: int)
    requires
        0 <= i < vlen,
        tslen >= 1,
        vlen % tslen == 0,
        (vlen / tslen) % 2 == 0,
        vlen / tslen >= 2,
    ensures
        ({
            let blk = vlen / tslen;
            let b = i / blk;
            let o = i % blk;
            &&& 0 <= b < tslen
            &&& 0 <= o < blk
            &&& i == b * blk + o
            &&& (o < blk / 2 ==> (i + blk / 2) / blk == b && (i + blk / 2) % blk == o + blk / 2
                && i + blk / 2 < vlen)
            &&& (o >= blk / 2 ==> (i - blk / 2) / blk == b && (i - blk / 2) % blk == o - blk / 2
                && 0 <= i - blk / 2)
        }),
{
    let blk = vlen / tslen;
    vstd::arithmetic::div_mod::lemma_fundamental_div_mod(vlen, tslen);
    assert(vlen == tslen * blk);
    vstd::arithmetic::div_mod::lemma_fundamental_div_mod(i, blk);
    let b = i / blk;
    let o = i % blk;
    assert(i == blk * b + o);
    assert(blk * b == b * blk) by (nonlinear_arith);
    assert(b < tslen) by {
        assert(vlen == (blk as int) * (tslen as int)) by (nonlinear_arith)
            requires
                vlen == tslen * blk,
        ;
        vstd::arithmetic::div_mod::lemma_multiply_divide_lt(i, blk, tslen);
    };
    assert(b * blk + blk <= tslen * blk) by (nonlinear_arith)
        requires
            b + 1 <= tslen,
            blk >= 2,
    ;
    vstd::arithmetic::div_mod::lemma_fundamental_div_mod(blk, 2);
    assert(blk == 2 * (blk / 2));
    if o < blk / 2 {
        vstd::arithmetic::div_mod::lemma_fundamental_div_mod_converse(
            i + blk / 2,
            blk,
            b,
            o + blk / 2,
        );
    } else {
        vstd::arithmetic::div_mod::lemma_fundamental_div_mod_converse(
            i - blk / 2,
            blk,
            b,
            o - blk / 2,
        );
    }
}

/// A decimation-in-time layer undoes the decimation-in-frequency layer
/// taken with the pointwise-inverse twiddles, up to a factor of two.
proof fn lemma_dit_layer_cancels_dif(v: Seq<int>, ts: Seq<int>, its: Seq<int>)
    requires
        its.len() == ts.len(),
        layer_shape(v.len(), ts.len()),
        forall|j: int| 0 <= j < ts.len() ==> (#[trigger] its[j] * ts[j]) % (P as int) == 1,
    ensures
        dit_layer(dif_layer(v, its), ts) == scale_seq(v, 2),
{
    let w = dif_layer(v, its);
    assert(w.len() == v.len());
    let blk = v.len() as int / ts.len() as int;
    assert forall|i: int| 0 <= i < v.len() implies dit_layer(w, ts)[i] == scale_seq(v, 2)[i] by {
        lemma_block_of(i, v.len() as int, ts.len() as int);
        let b = i / blk;
        let o = i % blk;
        if o < blk / 2 {
            let j = i + blk / 2;
            lemma_dit_undoes_dif(v[i], v[j], ts[b], its[b]);
        } else {
            let j = i - blk / 2;
            lemma_block_of(j, v.len() as int, ts.len() as int);
            lemma_dit_undoes_dif(v[j], v[i], ts[b], its[b]);
        }
    }
    assert(dit_layer(dif_layer(v, its), ts) =~= scale_seq(v, 2));
}

/// A decimation-in-frequency layer with pointwise-inverse twiddles undoes
/// the decimation-in-time layer, up to a factor of two.
proof fn lemma_dif_layer_cancels_dit(v: Seq<int>, ts: Seq<int>, its: Seq<int>)
    requires
        its.len() == ts.len(),
        layer_shape(v.len(), ts.len()),
        forall|j: int| 0 <= j < ts.len() ==> (#[trigger] its[j] * ts[j]) % (P as int) == 1,
    ensures
        dif_layer(dit_layer(v, ts), its) == scale_seq(v, 2),
{
    let w = dit_layer(v, ts);
    assert(w.len() == v.len());
    let blk = v.len() as int / ts.len() as int;
    assert forall|i: int| 0 <= i < v.len() implies dif_layer(w, its)[i] == scale_seq(v, 2)[i] by {
        lemma_block_of(i, v.len() as int, ts.len() as int);
        let b = i / blk;
        let o = i % blk;
        if o < blk / 2 {
            let j = i + blk / 2;
            lemma_dif_undoes_dit(v[i], v[j], ts[b], its[b]);
        } else {
            let j = i - blk / 2;
            lemma_block_of(j, v.len() as int, ts.len() as int);
            lemma_dif_undoes_dit(v[j], v[i], ts[b], its[b]);
        }
    }
    assert(dif_layer(dit_layer(v, ts), its) =~= scale_seq(v, 2));
}

/// Scaling commutes with a whole decimation-in-time layer.
proof fn lemma_dit_layer_scale_seq(v: Seq<int>, ts: Seq<int>, c: int)
    requires
        layer_shape(v.len(), ts.len()),
    ensures
        dit_layer(scale_seq(v, c), ts) == scale_seq(dit_layer(v, ts), c),
{
    let blk = v.len() as int / ts.len() as int;
    assert forall|i: int| 0 <= i < v.len() implies dit_layer(scale_seq(v, c), ts)[i] == scale_seq(
        dit_layer(v, ts),
        c,
    )[i] by {
        lemma_block_of(i, v.len() as int, ts.len() as int);
        let b = i / blk;
        let o = i % blk;
        if o < blk / 2 {
            lemma_dit_scale(v[i], v[i + blk / 2], ts[b], c);
        } else {
            lemma_block_of(i - blk / 2, v.len() as int, ts.len() as int);
            lemma_dit_scale(v[i - blk / 2], v[i], ts[b], c);
        }
    }
    assert(dit_layer(scale_seq(v, c), ts) =~= scale_seq(dit_layer(v, ts), c));
}

/// Scaling commutes with a whole decimation-in-frequency layer.
proof fn lemma_dif_layer_scale_seq(v: Seq<int>, ts: Seq<int>, c: int)
    requires
        layer_shape(v.len(), ts.len()),
    ensures
        dif_layer(scale_seq(v, c), ts) == scale_seq(dif_layer(v, ts), c),
{
    let blk = v.len() as int / ts.len() as int;
    assert forall|i: int| 0 <= i < v.len() implies dif_layer(scale_seq(v, c), ts)[i] == scale_seq(
        dif_layer(v, ts),
        c,
    )[i] by {
        lemma_block_of(i, v.len() as int, ts.len() as int);
        let b = i / blk;
        let o = i % blk;
        if o < blk / 2 {
            lemma_dif_scale(v[i], v[i + blk / 2], ts[b], c);
        } else {
            lemma_block_of(i - blk / 2, v.len() as int, ts.len() as int);
            lemma_dif_scale(v[i - blk / 2], v[i], ts[b], c);
        }
    }
    assert(dif_layer(scale_seq(v, c), ts) =~= scale_seq(dif_layer(v, ts), c));
}

// ---------------------------------------------------------------------------
// Fold lemmas.
// ---------------------------------------------------------------------------

/// Unfolding the decimation-in-frequency fold from its far end.
proof fn lemma_apply_dif_unfold_last(v: Seq<int>, s: Seq<Seq<int>>)
    requires
        s.len() >= 1,
    ensures
        apply_dif_layers(v, s) == dif_layer(apply_dif_layers(v, s.drop_last()), s.last()),
    decreases s.len(),
{
    if s.len() == 1 {
        assert(s.drop_first() =~= Seq::<Seq<int>>::empty());
        assert(s.drop_last() =~= Seq::<Seq<int>>::empty());
        assert(s.first() == s.last());
        assert(apply_dif_layers(v, s) == apply_dif_layers(dif_layer(v, s.first()), s.drop_first()));
        assert(apply_dif_layers(dif_layer(v, s.first()), Seq::<Seq<int>>::empty()) == dif_layer(
            v,
            s.first(),
        ));
        assert(apply_dif_layers(v, s.drop_last()) == v);
    } else {
        lemma_apply_dif_unfold_last(dif_layer(v, s.first()), s.drop_first());
        assert(s.drop_first().drop_last() =~= s.drop_last().drop_first());
        assert(s.drop_first().last() == s.last());
        assert(s.drop_last().first() == s.first());
    }
}

/// Unfolding the decimation-in-time fold from its far end.
proof fn lemma_apply_dit_unfold_first(v: Seq<int>, s: Seq<Seq<int>>)
    requires
        s.len() >= 1,
    ensures
        apply_dit_layers_rev(v, s) == dit_layer(apply_dit_layers_rev(v, s.drop_first()), s.first()),
    decreases s.len(),
{
    if s.len() == 1 {
        assert(s.drop_first() =~= Seq::<Seq<int>>::empty());
        assert(s.drop_last() =~= Seq::<Seq<int>>::empty());
        assert(s.first() == s.last());
        assert(apply_dit_layers_rev(v, s) == apply_dit_layers_rev(
            dit_layer(v, s.last()),
            s.drop_last(),
        ));
        assert(apply_dit_layers_rev(dit_layer(v, s.last()), Seq::<Seq<int>>::empty()) == dit_layer(
            v,
            s.last(),
        ));
        assert(apply_dit_layers_rev(v, s.drop_first()) == v);
    } else {
        lemma_apply_dit_unfold_first(dit_layer(v, s.last()), s.drop_last());
        assert(s.drop_last().drop_first() =~= s.drop_first().drop_last());
        assert(s.drop_last().first() == s.first());
        assert(s.drop_first().last() == s.last());
    }
}

/// Scaling commutes with the whole decimation-in-time fold.
proof fn lemma_dit_fold_scale(v: Seq<int>, tss: Seq<Seq<int>>, c: int)
    requires
        layers_shape(v.len(), tss),
    ensures
        apply_dit_layers_rev(scale_seq(v, c), tss) == scale_seq(apply_dit_layers_rev(v, tss), c),
    decreases tss.len(),
{
    if tss.len() == 0 {
        assert(scale_seq(v, c) =~= scale_seq(v, c));
    } else {
        lemma_dit_layer_scale_seq(v, tss.last(), c);
        assert(dit_layer(v, tss.last()).len() == v.len());
        assert(layers_shape(v.len(), tss.drop_last()));
        lemma_dit_fold_scale(dit_layer(v, tss.last()), tss.drop_last(), c);
    }
}

/// Scaling commutes with the whole decimation-in-frequency fold.
proof fn lemma_dif_fold_scale(v: Seq<int>, tss: Seq<Seq<int>>, c: int)
    requires
        layers_shape(v.len(), tss),
    ensures
        apply_dif_layers(scale_seq(v, c), tss) == scale_seq(apply_dif_layers(v, tss), c),
    decreases tss.len(),
{
    if tss.len() == 0 {
        assert(scale_seq(v, c) =~= scale_seq(v, c));
    } else {
        lemma_dif_layer_scale_seq(v, tss.first(), c);
        assert(dif_layer(v, tss.first()).len() == v.len());
        assert(layers_shape(v.len(), tss.drop_first()));
        lemma_dif_fold_scale(dif_layer(v, tss.first()), tss.drop_first(), c);
    }
}

/// Pointwise-inverse layer tables.
pub open spec fn pointwise_inverse(tss: Seq<Seq<int>>, itss: Seq<Seq<int>>) -> bool {
    &&& itss.len() == tss.len()
    &&& forall|k: int| 0 <= k < tss.len() ==> (#[trigger] itss[k]).len() == tss[k].len()
    &&& forall|k: int, j: int|
        0 <= k < tss.len() && 0 <= j < tss[k].len() ==> (#[trigger] itss[k][j] * tss[k][j]) % (
        P as int) == 1
}

/// The decimation-in-time fold undoes the decimation-in-frequency fold
/// with inverted twiddles, up to the factor `2^layers`.
proof fn lemma_fold_cancel_ev_in(v: Seq<int>, tss: Seq<Seq<int>>, itss: Seq<Seq<int>>)
    requires
        pointwise_inverse(tss, itss),
        layers_shape(v.len(), tss),
        all_canon(v),
    ensures
        apply_dit_layers_rev(apply_dif_layers(v, itss), tss) == scale_seq(v, fpow(2, tss.len())),
    decreases tss.len(),
{
    let n = tss.len();
    if n == 0 {
        assert(scale_seq(v, 1) =~= v) by {
            assert forall|i: int| 0 <= i < v.len() implies #[trigger] scale_seq(v, 1)[i]
                == v[i] by {
                lemma_small_mod(v[i] as nat, P as nat);
            }
        };
    } else {
        let wp = apply_dif_layers(v, itss.drop_last());
        crate::cfft::lemma_apply_dif_len(v, itss.drop_last());
        assert(wp.len() == v.len());
        lemma_apply_dif_unfold_last(v, itss);
        assert(apply_dif_layers(v, itss) == dif_layer(wp, itss.last()));
        // peel the outermost pair of layers
        assert(apply_dit_layers_rev(dif_layer(wp, itss.last()), tss) == apply_dit_layers_rev(
            dit_layer(dif_layer(wp, itss.last()), tss.last()),
            tss.drop_last(),
        ));
        assert(itss.last().len() == tss.last().len());
        lemma_dit_layer_cancels_dif(wp, tss.last(), itss.last());
        assert(dit_layer(dif_layer(wp, itss.last()), tss.last()) == scale_seq(wp, 2));
        assert(layers_shape(v.len(), tss.drop_last()));
        lemma_dit_fold_scale(wp, tss.drop_last(), 2);
        assert(apply_dit_layers_rev(scale_seq(wp, 2), tss.drop_last()) == scale_seq(
            apply_dit_layers_rev(wp, tss.drop_last()),
            2,
        ));
        assert(pointwise_inverse(tss.drop_last(), itss.drop_last()));
        lemma_fold_cancel_ev_in(v, tss.drop_last(), itss.drop_last());
        assert(apply_dit_layers_rev(wp, tss.drop_last()) == scale_seq(
            v,
            fpow(2, (n - 1) as nat),
        ));
        // compose the scalings
        assert(scale_seq(scale_seq(v, fpow(2, (n - 1) as nat)), 2) =~= scale_seq(
            v,
            fpow(2, n),
        )) by {
            assert forall|i: int| 0 <= i < v.len() implies #[trigger] scale_seq(
                scale_seq(v, fpow(2, (n - 1) as nat)),
                2,
            )[i] == scale_seq(v, fpow(2, n))[i] by {
                lemma_scale_compose(v[i], fpow(2, (n - 1) as nat), 2);
                assert(fmul(fpow(2, (n - 1) as nat), 2) == fpow(2, n));
            }
        };
    }
}

/// The decimation-in-frequency fold with inverted twiddles undoes the
/// decimation-in-time fold, up to the factor `2^layers`.
proof fn lemma_fold_cancel_in_ev(v: Seq<int>, tss: Seq<Seq<int>>, itss: Seq<Seq<int>>)
    requires
        pointwise_inverse(tss, itss),
        layers_shape(v.len(), tss),
        all_canon(v),
    ensures
        apply_dif_layers(apply_dit_layers_rev(v, tss), itss) == scale_seq(v, fpow(2, tss.len())),
    decreases tss.len(),
{
    let n = tss.len();
    if n == 0 {
        assert(scale_seq(v, 1) =~= v) by {
            assert forall|i: int| 0 <= i < v.len() implies #[trigger] scale_seq(v, 1)[i]
                == v[i] by {
                lemma_small_mod(v[i] as nat, P as nat);
            }
        };
    } else {
        let wp = apply_dit_layers_rev(v, tss.drop_first());
        crate::cfft::lemma_apply_dit_len(v, tss.drop_first());
        assert(wp.len() == v.len());
        lemma_apply_dit_unfold_first(v, tss);
        assert(apply_dit_layers_rev(v, tss) == dit_layer(wp, tss.first()));
        assert(apply_dif_layers(dit_layer(wp, tss.first()), itss) == apply_dif_layers(
            dif_layer(dit_layer(wp, tss.first()), itss.first()),
            itss.drop_first(),
        ));
        assert(itss.first().len() == tss.first().len());
        lemma_dif_layer_cancels_dit(wp, tss.first(), itss.first());
        assert(dif_layer(dit_layer(wp, tss.first()), itss.first()) == scale_seq(wp, 2));
        assert(layers_shape(v.len(), tss.drop_first()));
        assert(layers_shape(v.len(), itss.drop_first())) by {
            assert forall|k: int| 0 <= k < itss.drop_first().len() implies layer_shape(
                v.len(),
                (#[trigger] itss.drop_first()[k]).len(),
            ) by {
                assert(itss.drop_first()[k].len() == tss.drop_first()[k].len());
            }
        };
        lemma_dif_fold_scale(wp, itss.drop_first(), 2);
        assert(pointwise_inverse(tss.drop_first(), itss.drop_first()));
        lemma_fold_cancel_in_ev(v, tss.drop_first(), itss.drop_first());
        assert(scale_seq(scale_seq(v, fpow(2, (n - 1) as nat)), 2) =~= scale_seq(
            v,
            fpow(2, n),
        )) by {
            assert forall|i: int| 0 <= i < v.len() implies #[trigger] scale_seq(
                scale_seq(v, fpow(2, (n - 1) as nat)),
                2,
            )[i] == scale_seq(v, fpow(2, n))[i] by {
                lemma_scale_compose(v[i], fpow(2, (n - 1) as nat), 2);
                assert(fmul(fpow(2, (n - 1) as nat), 2) == fpow(2, n));
            }
        };
    }
}


// ---------------------------------------------------------------------------
// The public laws.
// ---------------------------------------------------------------------------

/// Where an inverse exists, `finv` delivers it.
proof fn lemma_finv_works(a: int)
    requires
        finv_exists(a),
    ensures
        0 <= finv(a) < P,
        (finv(a) * a) % (P as int) == 1,
        fmul(a, finv(a)) == 1,
{
    let r = finv(a);
    assert(0 <= r < P && (r * a) % (P as int) == 1);
    assert(a * r == r * a) by (nonlinear_arith);
}

/// The twiddle layers of a domain all divide a matrix of the domain's
/// height into even blocks.
proof fn lemma_domain_layers_shape(d: CircleDomain, w: nat)
    requires
        d.wf(),
        d.log_n >= 2,
        w >= 1,
    ensures
        layers_shape(pow2(d.log_n as nat) * w, spec_twiddles(d)),
        layers_shape(pow2(d.log_n as nat) * w, inv_layers(spec_twiddles(d))),
{
    let vlen = pow2(d.log_n as nat) * w;
    let tss = spec_twiddles(d);
    assert forall|k: int| 0 <= k < tss.len() implies layer_shape(
        vlen,
        (#[trigger] tss[k]).len(),
    ) by {
        lemma_twiddle_layer_len(d, k as nat);
        let ll = pow2((d.log_n - 1 - k) as nat);
        vstd::arithmetic::power2::lemma_pow2_adds((d.log_n - 1 - k) as nat, (k + 1) as nat);
        vstd::arithmetic::power2::lemma_pow2_unfold((k + 1) as nat);
        vstd::arithmetic::power2::lemma_pow2_pos(k as nat);
        vstd::arithmetic::power2::lemma_pow2_pos((d.log_n - 1 - k) as nat);
        let blk = pow2((k + 1) as nat) * w;
        assert(vlen == ll * blk) by (nonlinear_arith)
            requires
                vlen == pow2(d.log_n as nat) * w,
                pow2(d.log_n as nat) == pow2((d.log_n - 1 - k) as nat) * pow2((k + 1) as nat),
                ll == pow2((d.log_n - 1 - k) as nat),
                blk == pow2((k + 1) as nat) * w,
        ;
        vstd::arithmetic::div_mod::lemma_fundamental_div_mod_converse(
            vlen as int,
            ll as int,
            blk as int,
            0,
        );
        assert(blk == 2 * (pow2(k as nat) * w)) by (nonlinear_arith)
            requires
                blk == pow2((k + 1) as nat) * w,
                pow2((k + 1) as nat) == 2 * pow2(k as nat),
        ;
        assert(blk >= 2) by (nonlinear_arith)
            requires
                blk == 2 * (pow2(k as nat) * w),
                pow2(k as nat) >= 1,
                w >= 1,
        ;
    }
    assert forall|k: int| 0 <= k < inv_layers(tss).len() implies layer_shape(
        vlen,
        (#[trigger] inv_layers(tss)[k]).len(),
    ) by {
        assert(inv_layers(tss)[k].len() == tss[k].len());
        assert(layer_shape(vlen, tss[k].len()));
    }
}

/// The inverted twiddle table really holds pointwise inverses.
proof fn lemma_domain_pointwise_inverse(d: CircleDomain)
    requires
        d.wf(),
        twiddles_invertible(d),
    ensures
        pointwise_inverse(spec_twiddles(d), inv_layers(spec_twiddles(d))),
{
    let tss = spec_twiddles(d);
    let itss = inv_layers(tss);
    assert forall|k: int, j: int|
        0 <= k < tss.len() && 0 <= j < tss[k].len() implies (#[trigger] itss[k][j] * tss[k][j]) % (
    P as int) == 1 by {
        assert(finv_exists(spec_twiddle_layer(d, k as nat)[j]));
        lemma_finv_works(tss[k][j]);
        assert(itss[k][j] == finv(tss[k][j]));
    }
}

/// The domain size has the power of two `2^(31 - log_n)` as its
/// multiplicative inverse.
proof fn lemma_pow2_invertible(log_n: nat)
    requires
        1 <= log_n <= 30,
    ensures
        finv_exists(pow2(log_n) as int),
        fmul(pow2(log_n) as int, finv(pow2(log_n) as int)) == 1,
{
    vstd::arithmetic::power2::lemma2_to64();
    vstd::arithmetic::power2::lemma_pow2_adds((31 - log_n) as nat, log_n);
    vstd::arithmetic::power2::lemma_pow2_strictly_increases((31 - log_n) as nat, 31);
    assert(pow2(31) == 0x8000_0000);
    assert((pow2((31 - log_n) as nat) as int * pow2(log_n) as int) % (P as int) == 1);
    assert(finv_exists(pow2(log_n) as int));
    lemma_finv_works(pow2(log_n) as int);
}

/// Round trip: evaluating the interpolation of a matrix of evaluations
/// returns the evaluations unchanged.  The statement is over the exact
/// specification expressions that `CircleEvaluations::interpolate` and
/// `CircleEvaluations::evaluate` promise in their contracts, in cfft
/// order: the evaluation of the interpolated coefficients on the same
/// domain equals the original values.
pub proof fn lemma_round_trip(d: CircleDomain, e: Seq<int>, w: nat)
    requires
        d.wf(),
        d.log_n >= 2,
        w >= 1,
        e.len() == pow2(d.log_n as nat) * w,
        all_canon(e),
        twiddles_invertible(d),
    ensures
        apply_dit_layers_rev(
            zero_pad(
                scale_seq(
                    apply_dif_layers(e, inv_layers(spec_twiddles(d))),
                    finv(pow2(d.log_n as nat) as int),
                ),
                pow2(d.log_n as nat) * w,
            ),
            spec_twiddles(d),
        ) == e,
{
    let nn = pow2(d.log_n as nat);
    let tss = spec_twiddles(d);
    let itss = inv_layers(tss);
    let hv = finv(nn as int);
    lemma_domain_layers_shape(d, w);
    lemma_domain_pointwise_inverse(d);
    let cfold = apply_dif_layers(e, itss);
    crate::cfft::lemma_apply_dif_len(e, itss);
    // padding to the same length is the identity
    assert(zero_pad(scale_seq(cfold, hv), nn * w) =~= scale_seq(cfold, hv));
    lemma_dit_fold_scale(cfold, tss, hv);
    lemma_fold_cancel_ev_in(e, tss, itss);
    assert(tss.len() == d.log_n);
    lemma_fpow_two(d.log_n as nat);
    lemma_pow2_invertible(d.log_n as nat);
    // compose the 2^log_n growth with the division by the height
    assert(scale_seq(scale_seq(e, nn as int), hv) =~= e) by {
        assert forall|i: int| 0 <= i < e.len() implies #[trigger] scale_seq(
            scale_seq(e, nn as int),
            hv,
        )[i] == e[i] by {
            lemma_scale_compose(e[i], nn as int, hv);
            assert(fmul(nn as int, hv) == 1);
            lemma_small_mod(e[i] as nat, P as nat);
        }
    };
}

/// Low-degree extension consistency: interpolating an evaluation of
/// zero-padded coefficients returns exactly the zero-padded coefficients;
/// the first rows are the original coefficients and every row above them
/// is zero.  The statement is over the specification expressions of
/// `CircleEvaluations::evaluate` and `CircleEvaluations::interpolate`, so
/// it applies to `extrapolate` followed by `interpolate` on the larger
/// domain.
pub proof fn lemma_lde_consistency(d: CircleDomain, c: Seq<int>, w: nat, lh: nat)
    requires
        d.wf(),
        d.log_n >= 2,
        w >= 1,
        lh <= d.log_n,
        c.len() == pow2(lh) * w,
        all_canon(c),
        twiddles_invertible(d),
    ensures
        scale_seq(
            apply_dif_layers(
                apply_dit_layers_rev(zero_pad(c, pow2(d.log_n as nat) * w), spec_twiddles(d)),
                inv_layers(spec_twiddles(d)),
            ),
            finv(pow2(d.log_n as nat) as int),
        ) == zero_pad(c, pow2(d.log_n as nat) * w),
{
    let nn = pow2(d.log_n as nat);
    let tss = spec_twiddles(d);
    let itss = inv_layers(tss);
    let hv = finv(nn as int);
    let zp = zero_pad(c, nn * w);
    lemma_domain_layers_shape(d, w);
    lemma_domain_pointwise_inverse(d);
    assert(all_canon(zp)) by {
        assert forall|i: int| 0 <= i < zp.len() implies 0 <= #[trigger] zp[i] < P by {
            if i < c.len() {
                assert(zp[i] == c[i]);
            }
        }
    };
    lemma_fold_cancel_in_ev(zp, tss, itss);
    assert(tss.len() == d.log_n);
    lemma_fpow_two(d.log_n as nat);
    lemma_pow2_invertible(d.log_n as nat);
    assert(scale_seq(scale_seq(zp, nn as int), hv) =~= zp) by {
        assert forall|i: int| 0 <= i < zp.len() implies #[trigger] scale_seq(
            scale_seq(zp, nn as int),
            hv,
        )[i] == zp[i] by {
            lemma_scale_compose(zp[i], nn as int, hv);
            assert(fmul(nn as int, hv) == 1);
            lemma_small_mod(zp[i] as nat, P as nat);
        }
    };
    assert(apply_dif_layers(apply_dit_layers_rev(zp, tss), itss) == scale_seq(zp, nn as int));
}


/// Gathering rows through the cfft permutation twice is the identity: the
/// permutation is an involution.
pub proof fn lemma_double_permute(v: Seq<int>, w: nat, log_n: nat)
    requires
        w >= 1,
        log_n >= 1,
        v.len() == pow2(log_n) * w,
    ensures
        crate::cfft::cfft_permuted(crate::cfft::cfft_permuted(v, w, log_n), w, log_n) == v,
{
    let inner = crate::cfft::cfft_permuted(v, w, log_n);
    assert(inner.len() == v.len());
    assert forall|idx: int| 0 <= idx < v.len() implies crate::cfft::cfft_permuted(
        inner,
        w,
        log_n,
    )[idx] == v[idx] by {
        vstd::arithmetic::div_mod::lemma_fundamental_div_mod(idx, w as int);
        let i = idx / w as int;
        let c = idx % w as int;
        assert(i < pow2(log_n)) by {
            assert(v.len() as int == (w as int) * (pow2(log_n) as int)) by (nonlinear_arith)
                requires
                    v.len() == pow2(log_n) * w,
            ;
            vstd::arithmetic::div_mod::lemma_multiply_divide_lt(idx, w as int, pow2(
                log_n,
            ) as int);
        };
        let p = crate::ordering::cfft_perm(log_n, i as nat);
        crate::ordering::lemma_cfft_perm_bound(log_n, i as nat);
        crate::matrix::lemma_row_index(
            p as int,
            c,
            w as int,
            pow2(log_n) as int,
            v.len() as int,
        );
        vstd::arithmetic::div_mod::lemma_fundamental_div_mod_converse(
            p * w + c,
            w as int,
            p as int,
            c,
        );
        assert(((p * w + c) / w as int) as nat == p);
        assert((p * w + c) % w as int == c);
        crate::ordering::lemma_cfft_perm_bound(log_n, p);
        crate::ordering::lemma_cfft_perm_involution(log_n, i as nat);
        assert(crate::ordering::cfft_perm(log_n, p) == i);
        crate::matrix::lemma_row_index(i, c, w as int, pow2(log_n) as int, v.len() as int);
        assert(inner[p * w + c] == v[crate::ordering::cfft_perm(
            log_n,
            ((p * w + c) / w as int) as nat,
        ) * w + ((p * w + c) % w as int)]);
        assert(inner[p * w + c] == v[i * w + c]);
        assert(i * (w as int) == (w as int) * i) by (nonlinear_arith);
        assert(i * w + c == idx);
    }
    assert(crate::cfft::cfft_permuted(inner, w, log_n) =~= v);
}

/// Round trip in natural order: converting a matrix of evaluations to
/// cfft order, interpolating, evaluating on the same domain, and
/// converting back to natural order returns the evaluations unchanged.
/// The statement composes the contracts of
/// `CircleEvaluations::from_natural_order`, `interpolate`, `evaluate` and
/// `to_natural_order`.
pub proof fn lemma_round_trip_natural(d: CircleDomain, e_nat: Seq<int>, w: nat)
    requires
        d.wf(),
        d.log_n >= 2,
        w >= 1,
        e_nat.len() == pow2(d.log_n as nat) * w,
        all_canon(e_nat),
        twiddles_invertible(d),
    ensures
        crate::cfft::cfft_permuted(
            apply_dit_layers_rev(
                zero_pad(
                    scale_seq(
                        apply_dif_layers(
                            crate::cfft::cfft_permuted(e_nat, w, d.log_n as nat),
                            inv_layers(spec_twiddles(d)),
                        ),
                        finv(pow2(d.log_n as nat) as int),
                    ),
                    pow2(d.log_n as nat) * w,
                ),
                spec_twiddles(d),
            ),
            w,
            d.log_n as nat,
        ) == e_nat,
{
    let ln = d.log_n as nat;
    let e_c = crate::cfft::cfft_permuted(e_nat, w, ln);
    assert(e_c.len() == e_nat.len());
    assert(all_canon(e_c)) by {
        assert forall|idx: int| 0 <= idx < e_c.len() implies 0 <= #[trigger] e_c[idx] < P by {
            vstd::arithmetic::div_mod::lemma_fundamental_div_mod(idx, w as int);
            let i = idx / w as int;
            let c = idx % w as int;
            assert(i < pow2(ln)) by {
                assert(e_nat.len() as int == (w as int) * (pow2(ln) as int)) by (nonlinear_arith)
                    requires
                        e_nat.len() == pow2(ln) * w,
                ;
                vstd::arithmetic::div_mod::lemma_multiply_divide_lt(idx, w as int, pow2(
                    ln,
                ) as int);
            };
            crate::ordering::lemma_cfft_perm_bound(ln, i as nat);
            crate::matrix::lemma_row_index(
                crate::ordering::cfft_perm(ln, i as nat) as int,
                c,
                w as int,
                pow2(ln) as int,
                e_nat.len() as int,
            );
        }
    };
    lemma_round_trip(d, e_c, w);
    lemma_double_permute(e_nat, w, ln);
}


} // verus!
