//! The decimation-in-time inverse FFT kernels for Mersenne-31: a
//! recursive halving network in which every size first transforms its two
//! halves and then runs its own butterfly pass.  Sizes up to 32 take their
//! pass twiddles from fixed tables; larger sizes take them from a
//! precomputed root table, one layer per recursion level.

use vstd::prelude::*;
use vstd::arithmetic::power2::pow2;
use crate::field::{fadd, fmul, fsub, Mersenne31};
use crate::matrix::seq_vals;

verus! {

broadcast use crate::field::lemma_val_bound;

/// The fixed twiddles of the size-4 layer.
pub open spec fn inv_tw4() -> Seq<int> {
    seq![991237807int, 1371835609int]
}

/// The fixed twiddles of the size-8 layer.
pub open spec fn inv_tw8() -> Seq<int> {
    seq![1160411471int, 490549293int, 204982243int, 628957573int]
}

/// The fixed twiddles of the size-16 layer.
pub open spec fn inv_tw16() -> Seq<int> {
    seq![
        1899133673int,
        685780700int,
        761629115int,
        1798231519int,
        421110815int,
        1859156789int,
        655012266int,
        969924856int,
    ]
}

/// The fixed twiddles of the size-32 layer.
pub open spec fn inv_tw32() -> Seq<int> {
    seq![
        959596234int,
        721860568int,
        218253990int,
        1955048591int,
        1046725194int,
        1036402186int,
        1268642696int,
        559888787int,
        1381082522int,
        2138687850int,
        448375059int,
        559361447int,
        1356867335int,
        1767118503int,
        1051468699int,
        2029303208int,
    ]
}

/// One butterfly pass: entry `i` of the first half becomes the sum with
/// its partner, the partner becomes the twiddled difference.
pub open spec fn backward_pass_spec(a: Seq<int>, roots: Seq<int>) -> Seq<int> {
    let half = a.len() as int / 2;
    Seq::new(
        a.len(),
        |i: int| if i < half {
            fadd(a[i], a[i + half])
        } else {
            fmul(fsub(a[i - half], a[i]), roots[i - half])
        },
    )
}

/// The size-2 base case: sum, and difference twiddled by `2^16`.
pub open spec fn backward_2_spec(a: Seq<int>) -> Seq<int> {
    seq![fadd(a[0], a[1]), fmul(fsub(a[0], a[1]), 65536)]
}

/// The pass twiddles of a size: the fixed layers for the unrolled sizes,
/// the head of the root table above them.
pub open spec fn layer_roots(len: nat, table: Seq<Seq<int>>) -> Seq<int> {
    if len == 4 {
        inv_tw4()
    } else if len == 8 {
        inv_tw8()
    } else if len == 16 {
        inv_tw16()
    } else if len == 32 {
        inv_tw32()
    } else {
        table.first()
    }
}

/// The whole recursive network: at every size, transform the two halves,
/// then run this size's butterfly pass.
pub open spec fn spec_backward(a: Seq<int>, table: Seq<Seq<int>>) -> Seq<int>
    decreases a.len(),
{
    if a.len() < 2 {
        a
    } else if a.len() == 2 {
        backward_2_spec(a)
    } else {
        let half = a.len() as int / 2;
        backward_pass_spec(
            spec_backward(a.subrange(0, half), table.drop_first()) + spec_backward(
                a.subrange(half, a.len() as int),
                table.drop_first(),
            ),
            layer_roots(a.len(), table),
        )
    }
}

/// The root-table shape from level `t` on, as the caller must supply it:
/// a vector of two or more entries has exactly `2^(layers + 1)` entries
/// for the remaining layers, and every layer a size above 32 will consume
/// holds one twiddle per butterfly pair.
pub open spec fn table_ok(tb: Seq<Vec<Mersenne31>>, t: int, len: nat) -> bool {
    &&& 0 <= t <= tb.len()
    &&& (len >= 2 ==> len == pow2((tb.len() - t + 1) as nat))
    &&& forall|i: int|
        t <= i < tb.len() && pow2((i - t + 1) as nat) * 32 <= len ==> (#[trigger] tb[i])@.len()
            * pow2((i - t + 1) as nat) == len
}

/// In-place butterfly pass on the segment `[off, off + len)`.
fn backward_pass(a: &mut Vec<Mersenne31>, off: usize, len: usize, roots: &Vec<Mersenne31>)
    requires
        len % 2 == 0,
        len >= 2,
        roots@.len() == len / 2,
        off + len <= old(a)@.len(),
    ensures
        final(a)@.len() == old(a)@.len(),
        forall|q: int| 0 <= q < off ==> final(a)@[q] == old(a)@[q],
        forall|q: int| off + len <= q < old(a)@.len() ==> final(a)@[q] == old(a)@[q],
        seq_vals(final(a)@.subrange(off as int, off + len)) == backward_pass_spec(
            seq_vals(old(a)@.subrange(off as int, off + len)),
            seq_vals(roots@),
        ),
{
    let ghost origm = old(a)@;
    let ghost seg = seq_vals(old(a)@.subrange(off as int, off + len));
    let _total = a.len();
    let half = len / 2;
    let mut i: usize = 0;
    while i < half
        invariant
            0 <= i <= half,
            half == len / 2,
            len % 2 == 0,
            len >= 2,
            roots@.len() == half,
            off + len <= origm.len(),
            origm.len() <= usize::MAX,
            a@.len() == origm.len(),
            seg == seq_vals(origm.subrange(off as int, off + len)),
            seg.len() == len,
            forall|q: int| 0 <= q < off ==> a@[q] == origm[q],
            forall|q: int| off + len <= q < origm.len() ==> a@[q] == origm[q],
            forall|q: int| off + i <= q < off + half ==> a@[q] == origm[q],
            forall|q: int| off + half + i <= q < off + len ==> a@[q] == origm[q],
            forall|q: int|
                off <= q < off + i ==> #[trigger] a@[q].val() == fadd(
                    seg[q - off],
                    seg[q - off + half],
                ),
            forall|q: int|
                off + half <= q < off + half + i ==> #[trigger] a@[q].val() == fmul(
                    fsub(seg[q - off - half], seg[q - off]),
                    seq_vals(roots@)[q - off - half],
                ),
        decreases half - i,
    {
        let hi = a[off + i];
        let lo = a[off + half + i];
        let w = roots[i];
        a.set(off + i, hi.add(lo));
        a.set(off + half + i, hi.sub(lo).mul(w));
        i = i + 1;
    }
    proof {
        assert(seq_vals(a@.subrange(off as int, off + len)) =~= backward_pass_spec(
            seg,
            seq_vals(roots@),
        ));
    }
}

/// In-place size-2 base case.
fn backward_2(a: &mut Vec<Mersenne31>, off: usize)
    requires
        off + 2 <= old(a)@.len(),
    ensures
        final(a)@.len() == old(a)@.len(),
        forall|q: int| 0 <= q < off ==> final(a)@[q] == old(a)@[q],
        forall|q: int| off + 2 <= q < old(a)@.len() ==> final(a)@[q] == old(a)@[q],
        seq_vals(final(a)@.subrange(off as int, off + 2)) == backward_2_spec(
            seq_vals(old(a)@.subrange(off as int, off + 2)),
        ),
{
    let _total = a.len();
    let x0 = a[off];
    let x1 = a[off + 1];
    let s = x0.add(x1);
    let t = x0.sub(x1).mul(Mersenne31::new(65536));
    a.set(off, s);
    a.set(off + 1, t);
    proof {
        assert(seq_vals(a@.subrange(off as int, off + 2)) =~= backward_2_spec(
            seq_vals(old(a)@.subrange(off as int, off + 2)),
        ));
    }
}

/// The fixed twiddles of the size-4 layer, as field elements.
fn inv_twiddles_4() -> (r: Vec<Mersenne31>)
    ensures
        seq_vals(r@) == inv_tw4(),
{
    let mut v: Vec<Mersenne31> = Vec::new();
    v.push(Mersenne31::new(991237807));
    v.push(Mersenne31::new(1371835609));
    proof {
        assert(seq_vals(v@) =~= inv_tw4());
    }
    v
}

/// The fixed twiddles of the size-8 layer, as field elements.
fn inv_twiddles_8() -> (r: Vec<Mersenne31>)
    ensures
        seq_vals(r@) == inv_tw8(),
{
    let mut v: Vec<Mersenne31> = Vec::new();
    v.push(Mersenne31::new(1160411471));
    v.push(Mersenne31::new(490549293));
    v.push(Mersenne31::new(204982243));
    v.push(Mersenne31::new(628957573));
    proof {
        assert(seq_vals(v@) =~= inv_tw8());
    }
    v
}

/// The fixed twiddles of the size-16 layer, as field elements.
fn inv_twiddles_16() -> (r: Vec<Mersenne31>)
    ensures
        seq_vals(r@) == inv_tw16(),
{
    let mut v: Vec<Mersenne31> = Vec::new();
    v.push(Mersenne31::new(1899133673));
    v.push(Mersenne31::new(685780700));
    v.push(Mersenne31::new(761629115));
    v.push(Mersenne31::new(1798231519));
    v.push(Mersenne31::new(421110815));
    v.push(Mersenne31::new(1859156789));
    v.push(Mersenne31::new(655012266));
    v.push(Mersenne31::new(969924856));
    proof {
        assert(seq_vals(v@) =~= inv_tw16());
    }
    v
}

/// The fixed twiddles of the size-32 layer, as field elements.
fn inv_twiddles_32() -> (r: Vec<Mersenne31>)
    ensures
        seq_vals(r@) == inv_tw32(),
{
    let mut v: Vec<Mersenne31> = Vec::new();
    v.push(Mersenne31::new(959596234));
    v.push(Mersenne31::new(721860568));
    v.push(Mersenne31::new(218253990));
    v.push(Mersenne31::new(1955048591));
    v.push(Mersenne31::new(1046725194));
    v.push(Mersenne31::new(1036402186));
    v.push(Mersenne31::new(1268642696));
    v.push(Mersenne31::new(559888787));
    v.push(Mersenne31::new(1381082522));
    v.push(Mersenne31::new(2138687850));
    v.push(Mersenne31::new(448375059));
    v.push(Mersenne31::new(559361447));
    v.push(Mersenne31::new(1356867335));
    v.push(Mersenne31::new(1767118503));
    v.push(Mersenne31::new(1051468699));
    v.push(Mersenne31::new(2029303208));
    proof {
        assert(seq_vals(v@) =~= inv_tw32());
    }
    v
}

/// The twiddle layers of the root table from index `t` on, as reduced
/// sequences.
pub open spec fn table_vals(tb: Seq<Vec<Mersenne31>>, t: int) -> Seq<Seq<int>> {
    Seq::new((tb.len() - t) as nat, |k: int| seq_vals(tb[t + k]@))
}

/// Halving a power of two above 2 stays a power of two at least 2.
proof fn lemma_pow2_half(len: nat)
    requires
        len >= 4,
        exists|k: nat| #[trigger] pow2(k) == len,
    ensures
        len % 2 == 0,
        exists|k: nat| #[trigger] pow2(k) == len / 2,
        len / 2 >= 2,
{
    let k = choose|k: nat| #[trigger] pow2(k) == len;
    vstd::arithmetic::power2::lemma2_to64();
    if k < 2 {
        assert(pow2(k) < 4) by {
            vstd::arithmetic::power2::lemma_pow2_strictly_increases(k, 2);
        };
    }
    vstd::arithmetic::power2::lemma_pow2_unfold(k);
    let km1 = (k - 1) as nat;
    assert(pow2(km1) == len / 2);
    if km1 < 1 {
        assert(pow2(km1) < 2) by {
            vstd::arithmetic::power2::lemma_pow2_strictly_increases(km1, 1);
        };
    }
}

/// A power of two is one of the unrolled sizes or at least 64.
proof fn lemma_pow2_cases(len: nat)
    requires
        len >= 1,
        exists|k: nat| #[trigger] pow2(k) == len,
    ensures
        len == 1 || len == 2 || len == 4 || len == 8 || len == 16 || len == 32 || len >= 64,
{
    let k = choose|k: nat| #[trigger] pow2(k) == len;
    vstd::arithmetic::power2::lemma2_to64();
    if k == 0 {
    } else if k == 1 {
    } else if k == 2 {
    } else if k == 3 {
    } else if k == 4 {
    } else if k == 5 {
    } else if k == 6 {
    } else {
        vstd::arithmetic::power2::lemma_pow2_strictly_increases(6, k);
    }
}

/// The table shape passes to the tail for the halves: one level is
/// consumed, and for sizes above 32 the head layer holds exactly one
/// twiddle per pair.
proof fn lemma_table_tail(tb: Seq<Vec<Mersenne31>>, t: int, len: nat)
    requires
        len >= 4,
        len % 2 == 0,
        table_ok(tb, t, len),
    ensures
        t < tb.len(),
        table_ok(tb, t + 1, (len / 2) as nat),
        len > 32 ==> tb[t]@.len() == len / 2,
{
    vstd::arithmetic::power2::lemma2_to64();
    let avail = (tb.len() - t) as nat;
    assert(len == pow2((avail + 1) as nat));
    assert(t < tb.len()) by {
        if avail == 0 {
            assert(pow2(1) == 2);
        }
    };
    vstd::arithmetic::power2::lemma_pow2_unfold((avail + 1) as nat);
    assert(len / 2 == pow2(avail));
    if len > 32 {
        assert(len >= 64) by {
            if avail + 1 <= 5 {
                assert(pow2((avail + 1) as nat) <= 32) by {
                    if avail + 1 < 5 {
                        vstd::arithmetic::power2::lemma_pow2_strictly_increases(
                            (avail + 1) as nat,
                            5,
                        );
                    }
                };
            } else {
                if avail + 1 > 6 {
                    vstd::arithmetic::power2::lemma_pow2_strictly_increases(6, (avail + 1) as nat);
                }
            }
        };
        assert(pow2(1) * 32 <= len);
        assert(tb[t]@.len() * pow2(1) == len);
        assert(tb[t]@.len() == len / 2);
    }
    assert forall|i: int|
        t + 1 <= i < tb.len() && pow2((i - t) as nat) * 32 <= len / 2 implies (
    #[trigger] tb[i])@.len() * pow2((i - t) as nat) == len / 2 by {
        vstd::arithmetic::power2::lemma_pow2_unfold((i - t + 1) as nat);
        assert(pow2((i - t + 1) as nat) == 2 * pow2((i - t) as nat));
        assert(pow2((i - t + 1) as nat) * 32 <= len);
        assert(tb[i]@.len() * pow2((i - t + 1) as nat) == len);
        assert(tb[i]@.len() * (2 * pow2((i - t) as nat)) == 2 * (tb[i]@.len() * pow2(
            (i - t) as nat,
        ))) by (nonlinear_arith);
    }
}

/// The recursive network on the segment `[off, off + len)`, using root
/// table layers from `t` on for sizes above 32.
fn backward_rec(
    a: &mut Vec<Mersenne31>,
    off: usize,
    len: usize,
    table: &Vec<Vec<Mersenne31>>,
    t: usize,
)
    requires
        off + len <= old(a)@.len(),
        len >= 1,
        exists|k: nat| #[trigger] pow2(k) == len,
        table_ok(table@, t as int, len as nat),
    ensures
        final(a)@.len() == old(a)@.len(),
        forall|q: int| 0 <= q < off ==> final(a)@[q] == old(a)@[q],
        forall|q: int| off + len <= q < old(a)@.len() ==> final(a)@[q] == old(a)@[q],
        seq_vals(final(a)@.subrange(off as int, off + len)) == spec_backward(
            seq_vals(old(a)@.subrange(off as int, off + len)),
            table_vals(table@, t as int),
        ),
    decreases len,
{
    let ghost origm = old(a)@;
    let ghost seg = seq_vals(old(a)@.subrange(off as int, off + len));
    let _total_all = a.len();
    if len == 1 {
        proof {
            assert(seq_vals(a@.subrange(off as int, off + 1)) =~= seg);
        }
        return ;
    }
    if len == 2 {
        backward_2(a, off);
        return ;
    }
    // len >= 4: transform the halves, then run this size's pass.
    proof {
        lemma_pow2_cases(len as nat);
    }
    let half = len / 2;
    let _tl = table.len();
    proof {
        lemma_pow2_half(len as nat);
        lemma_table_tail(table@, t as int, len as nat);
    }
    let t2: usize = t + 1;
    let ghost tvals = table_vals(table@, t as int);
    let ghost tvals2 = table_vals(table@, t2 as int);
    backward_rec(a, off, half, table, t2);
    let ghost mid1 = a@;
    backward_rec(a, off + half, half, table, t2);
    let ghost lo_done = seq_vals(a@.subrange(off as int, off + half));
    let ghost hi_done = seq_vals(a@.subrange(off as int + half, off + len));
    proof {
        // the halves of the original segment
        assert(seq_vals(origm.subrange(off as int, off + half)) =~= seg.subrange(0, half as int));
        assert(seq_vals(origm.subrange(off as int + half, off + len)) =~= seg.subrange(
            half as int,
            len as int,
        ));
        // the first recursion transformed the low half; the second left it alone
        assert(lo_done =~= seq_vals(mid1.subrange(off as int, off + half)));
        assert(lo_done == spec_backward(seg.subrange(0, half as int), tvals2));
        // the first recursion left the high half alone; the second transformed it
        assert(seq_vals(mid1.subrange(off as int + half, off + len)) =~= seg.subrange(
            half as int,
            len as int,
        ));
        assert(hi_done == spec_backward(seg.subrange(half as int, len as int), tvals2));
        // the table tail is what the specification recursion uses
        assert(tvals.drop_first() =~= tvals2);
        assert(seq_vals(a@.subrange(off as int, off + len)) =~= lo_done + hi_done);
    }
    if len == 4 {
        let tw = inv_twiddles_4();
        proof {
            assert(tw@.len() == seq_vals(tw@).len());
            assert(inv_tw4().len() == 2);
        }
        backward_pass(a, off, len, &tw);
        proof {
            assert(layer_roots(len as nat, tvals) == inv_tw4());
        }
    } else if len == 8 {
        let tw = inv_twiddles_8();
        proof {
            assert(tw@.len() == seq_vals(tw@).len());
            assert(inv_tw8().len() == 4);
        }
        backward_pass(a, off, len, &tw);
        proof {
            assert(layer_roots(len as nat, tvals) == inv_tw8());
        }
    } else if len == 16 {
        let tw = inv_twiddles_16();
        proof {
            assert(tw@.len() == seq_vals(tw@).len());
            assert(inv_tw16().len() == 8);
        }
        backward_pass(a, off, len, &tw);
        proof {
            assert(layer_roots(len as nat, tvals) == inv_tw16());
        }
    } else if len == 32 {
        let tw = inv_twiddles_32();
        proof {
            assert(tw@.len() == seq_vals(tw@).len());
            assert(inv_tw32().len() == 16);
        }
        backward_pass(a, off, len, &tw);
        proof {
            assert(layer_roots(len as nat, tvals) == inv_tw32());
        }
    } else {
        proof {
            assert(table@[t as int]@.len() == len / 2);
            assert(tvals.first() == seq_vals(table@[t as int]@));
            assert(layer_roots(len as nat, tvals) == seq_vals(table@[t as int]@));
        }
        backward_pass(a, off, len, &table[t]);
    }
    proof {
        assert(seq_vals(a@.subrange(off as int, off + len)) == backward_pass_spec(
            lo_done + hi_done,
            layer_roots(len as nat, tvals),
        ));
        assert(seq_vals(a@.subrange(off as int, off + len)) == spec_backward(seg, tvals));
    }
}

impl Mersenne31 {
    /// The whole decimation-in-time inverse FFT, in place.  A vector of
    /// one entry is returned unchanged with the table unconstrained;
    /// otherwise the length must be exactly `2^(layers + 1)`, and each
    /// layer a size above 32 consumes must hold one twiddle per pair.
    pub fn backward_fft(a: &mut Vec<Mersenne31>, twiddle_table: &Vec<Vec<Mersenne31>>)
        requires
            old(a)@.len() >= 1,
            table_ok(twiddle_table@, 0, old(a)@.len()),
        ensures
            final(a)@.len() == old(a)@.len(),
            seq_vals(final(a)@) == spec_backward(
                seq_vals(old(a)@),
                table_vals(twiddle_table@, 0),
            ),
    {
        let n = a.len();
        proof {
            vstd::arithmetic::power2::lemma2_to64();
            if n >= 2 {
                assert(pow2((twiddle_table@.len() + 1) as nat) == n);
            } else {
                assert(pow2(0) == n);
            }
        }
        backward_rec(a, 0, n, twiddle_table, 0);
        proof {
            assert(old(a)@.subrange(0, n as int) =~= old(a)@);
            assert(final(a)@.subrange(0, n as int) =~= final(a)@);
        }
    }
}

} // verus!
