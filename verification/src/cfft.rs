//! The circle FFT: interpolation between evaluations on a circle domain and
//! coefficients in the circle basis, low-degree extension, and barycentric
//! evaluation at arbitrary points.

use vstd::prelude::*;
use vstd::arithmetic::power2::pow2;
use crate::domain::CircleDomain;
use crate::field::{fadd, fmul, fsub, finv, finv_exists, Mersenne31, P};
use crate::matrix::{seq_vals, RowMajorMat};
use crate::ordering::{cfft_perm, rev_bits, cfft_permute_index, reverse_bits_exec};
use crate::point::{iter_pt, pi_x, Point};

verus! {

broadcast use crate::field::lemma_val_bound;

/// Twiddle layer `k` of a domain: layer 0 holds the y-coordinates of the
/// bit-reversed half-coset, layer 1 the x-coordinates at stride 2, and each
/// further layer applies the doubling map `x -> 2x^2 - 1` at stride 2.
pub open spec fn spec_twiddle_layer(d: CircleDomain, k: nat) -> Seq<int>
    decreases k,
{
    if k == 0 {
        Seq::new(
            pow2((d.log_n - 1) as nat),
            |i: int| d.spec_coset0_point(rev_bits(i as nat, (d.log_n - 1) as nat)).1,
        )
    } else if k == 1 {
        Seq::new(
            pow2((d.log_n - 2) as nat),
            |i: int| d.spec_coset0_point(rev_bits((2 * i) as nat, (d.log_n - 1) as nat)).0,
        )
    } else {
        Seq::new(
            pow2((d.log_n - 1 - k) as nat),
            |i: int| pi_x(spec_twiddle_layer(d, (k - 1) as nat)[2 * i]),
        )
    }
}

/// All `log_n` twiddle layers of a domain.
pub open spec fn spec_twiddles(d: CircleDomain) -> Seq<Seq<int>> {
    Seq::new(d.log_n as nat, |k: int| spec_twiddle_layer(d, k as nat))
}

/// Every twiddle of the domain has a multiplicative inverse.  This holds of
/// every circle domain, because all twiddles are coordinates of distinct
/// coset points and never vanish; the library takes it as a precondition
/// where the inverses are actually formed, and the inverses themselves are
/// checked at run time.
pub open spec fn twiddles_invertible(d: CircleDomain) -> bool {
    forall|k: nat, j: int|
        k < d.log_n && 0 <= j < spec_twiddle_layer(d, k).len() ==> finv_exists(
            #[trigger] spec_twiddle_layer(d, k)[j],
        )
}

impl CircleDomain {
    /// The y-twiddles: y-coordinates of the half-coset, bit-reversed.
    pub fn y_twiddles(&self) -> (r: Vec<Mersenne31>)
        requires
            self.wf(),
        ensures
            seq_vals(r@) == spec_twiddle_layer(*self, 0),
    {
        let pts = self.coset0_points();
        let mut out: Vec<Mersenne31> = Vec::new();
        let half = pts.len();
        let mut i: usize = 0;
        while i < half
            invariant
                0 <= i <= half,
                self.wf(),
                half == pow2((self.log_n - 1) as nat),
                pts@.len() == half,
                forall|k: int|
                    0 <= k < half ==> pts@[k].pt() == self.spec_coset0_point(k as nat),
                out@.len() == i,
                forall|k: int|
                    0 <= k < i ==> out@[k].val() == self.spec_coset0_point(
                        rev_bits(k as nat, (self.log_n - 1) as nat),
                    ).1,
            decreases half - i,
        {
            let j = reverse_bits_exec(i, self.log_n - 1);
            out.push(pts[j].y);
            i = i + 1;
        }
        proof {
            assert(seq_vals(out@) =~= spec_twiddle_layer(*self, 0));
        }
        out
    }

    /// The `index`-th y-twiddle, computed directly from the domain points
    /// through the cfft permutation.
    pub fn nth_y_twiddle(&self, index: usize) -> (r: Mersenne31)
        requires
            self.wf(),
            index < pow2((self.log_n - 1) as nat),
        ensures
            r.val() == self.spec_point(cfft_perm(self.log_n as nat, (2 * index) as nat)).1,
    {
        proof {
            vstd::arithmetic::power2::lemma_pow2_unfold(self.log_n as nat);
            vstd::arithmetic::power2::lemma_pow2_unfold((self.log_n + 1) as nat);
            vstd::bits::lemma_usize_pow2_no_overflow((self.log_n + 1) as nat);
        }
        self.nth_point(cfft_permute_index(2 * index, self.log_n)).y
    }

    /// The x-twiddles of a layer: x-coordinates of the scaled half-coset,
    /// bit-reversed.
    pub fn x_twiddles(&self, layer: usize) -> (r: Vec<Mersenne31>)
        requires
            self.wf(),
            self.log_n >= 2,
            layer <= self.log_n - 2,
        ensures
            r@.len() == pow2((self.log_n - layer - 2) as nat),
            forall|i: int|
                0 <= i < r@.len() ==> (#[trigger] r@[i]).val() == iter_pt(
                    crate::point::pt_mul(self.shift.pt(), pow2(layer as nat)),
                    crate::point::pt_mul(self.spec_gen_half(), pow2(layer as nat)),
                    rev_bits(i as nat, (self.log_n - layer - 2) as nat),
                ).0,
    {
        proof {
            vstd::bits::lemma_usize_pow2_no_overflow(layer as nat);
            vstd::bits::lemma_usize_shl_is_mul(1usize, layer);
        }
        let scale: usize = 1usize << layer;
        let g = crate::point::Point::generator(self.log_n - 1).mul_scalar(scale);
        let shift = self.shift.mul_scalar(scale);
        proof {
            vstd::bits::lemma_usize_pow2_no_overflow((self.log_n - layer - 2) as nat);
            vstd::bits::lemma_usize_shl_is_mul(1usize, (self.log_n - layer - 2) as usize);
        }
        let count: usize = 1usize << (self.log_n - layer - 2);
        let ghost start = crate::point::pt_mul(self.shift.pt(), pow2(layer as nat));
        let ghost step = crate::point::pt_mul(self.spec_gen_half(), pow2(layer as nat));
        let mut xs: Vec<Mersenne31> = Vec::new();
        let mut cur = shift;
        let mut i: usize = 0;
        while i < count
            invariant
                0 <= i <= count,
                g.pt() == step,
                cur.pt() == iter_pt(start, step, i as nat),
                xs@.len() == i,
                forall|k: int|
                    0 <= k < i ==> (#[trigger] xs@[k]).val() == iter_pt(start, step, k as nat).0,
            decreases count - i,
        {
            xs.push(cur.x);
            cur = cur.add(g);
            i = i + 1;
        }
        let mut out: Vec<Mersenne31> = Vec::new();
        let mut i2: usize = 0;
        while i2 < count
            invariant
                0 <= i2 <= count,
                count == pow2((self.log_n - layer - 2) as nat),
                self.wf(),
                self.log_n >= 2,
                layer <= self.log_n - 2,
                xs@.len() == count,
                forall|k: int|
                    0 <= k < count ==> (#[trigger] xs@[k]).val() == iter_pt(
                        start,
                        step,
                        k as nat,
                    ).0,
                out@.len() == i2,
                forall|k: int|
                    0 <= k < i2 ==> (#[trigger] out@[k]).val() == iter_pt(
                        start,
                        step,
                        rev_bits(k as nat, (self.log_n - layer - 2) as nat),
                    ).0,
            decreases count - i2,
        {
            let j = reverse_bits_exec(i2, self.log_n - layer - 2);
            out.push(xs[j]);
            i2 = i2 + 1;
        }
        out
    }

    /// The `index`-th x-twiddle, computed directly: `(shift + index * gen).x`.
    pub fn nth_x_twiddle(&self, index: usize) -> (r: Mersenne31)
        requires
            self.wf(),
        ensures
            r.val() == crate::point::pt_add(
                self.shift.pt(),
                crate::point::pt_mul(self.spec_gen_half(), index as nat),
            ).0,
    {
        self.shift.add(crate::point::Point::generator(self.log_n - 1).mul_scalar(index)).x
    }
}


/// Establish `twiddles_invertible` by computation: exhibit an inverse for
/// every twiddle of the domain.  Every real circle domain passes, because
/// its twiddles are coordinates of distinct coset points and never vanish;
/// the run-time check is what lets verified callers discharge the
/// precondition of `interpolate` without a group-order development.
pub fn check_twiddles_invertible(domain: &CircleDomain) -> (r: bool)
    requires
        domain.wf(),
        domain.log_n >= 2,
    ensures
        r ==> twiddles_invertible(*domain),
{
    let log_n = domain.log_n;
    let twiddles = compute_twiddles(domain);
    let mut k: usize = 0;
    while k < log_n
        invariant
            0 <= k <= log_n,
            domain.wf(),
            log_n == domain.log_n,
            twiddles@.len() == log_n,
            forall|m: int|
                0 <= m < log_n ==> seq_vals(#[trigger] twiddles@[m]@) == spec_twiddle_layer(
                    *domain,
                    m as nat,
                ),
            forall|k2: nat, j2: int|
                k2 < k && 0 <= j2 < spec_twiddle_layer(*domain, k2).len() ==> finv_exists(
                    #[trigger] spec_twiddle_layer(*domain, k2)[j2],
                ),
        decreases log_n - k,
    {
        let layer_len = twiddles[k].len();
        let mut j: usize = 0;
        while j < layer_len
            invariant
                0 <= j <= layer_len,
                0 <= k < log_n,
                domain.wf(),
                log_n == domain.log_n,
                twiddles@.len() == log_n,
                forall|m: int|
                    0 <= m < log_n ==> seq_vals(#[trigger] twiddles@[m]@) == spec_twiddle_layer(
                        *domain,
                        m as nat,
                    ),
                layer_len == spec_twiddle_layer(*domain, k as nat).len(),
                forall|k2: nat, j2: int|
                    k2 < k && 0 <= j2 < spec_twiddle_layer(*domain, k2).len() ==> finv_exists(
                        #[trigger] spec_twiddle_layer(*domain, k2)[j2],
                    ),
                forall|j2: int|
                    0 <= j2 < j ==> finv_exists(
                        #[trigger] spec_twiddle_layer(*domain, k as nat)[j2],
                    ),
            decreases layer_len - j,
        {
            let t = twiddles[k][j];
            let cand = t.exp_u64((P - 2) as u64);
            let check = cand.mul(t);
            if check.as_canonical_u32() != 1 {
                return false;
            }
            proof {
                assert(seq_vals(twiddles@[k as int]@)[j as int] == t.val());
                assert((cand.val() * t.val()) % (P as int) == 1);
                assert(finv_exists(spec_twiddle_layer(*domain, k as nat)[j as int]));
            }
            j = j + 1;
        }
        k = k + 1;
    }
    proof {
        assert forall|k2: nat, j2: int|
            k2 < domain.log_n && 0 <= j2 < spec_twiddle_layer(*domain, k2).len() implies finv_exists(
            #[trigger] spec_twiddle_layer(*domain, k2)[j2],
        ) by {
        }
    }
    true
}

/// The full twiddle table of a domain, layer by layer.
pub fn compute_twiddles(domain: &CircleDomain) -> (r: Vec<Vec<Mersenne31>>)
    requires
        domain.wf(),
        domain.log_n >= 2,
    ensures
        r@.len() == domain.log_n,
        forall|k: int| 0 <= k < domain.log_n ==> seq_vals(#[trigger] r@[k]@) == spec_twiddle_layer(
            *domain,
            k as nat,
        ),
{
    let log_n = domain.log_n;
    let pts = domain.coset0_points();
    let half = pts.len();

    // Bit-reverse the half-coset.
    let mut rev_pts: Vec<crate::point::Point> = Vec::new();
    let mut i: usize = 0;
    while i < half
        invariant
            0 <= i <= half,
            domain.wf(),
            log_n == domain.log_n,
            half == pow2((log_n - 1) as nat),
            pts@.len() == half,
            forall|k: int| 0 <= k < half ==> pts@[k].pt() == domain.spec_coset0_point(k as nat),
            rev_pts@.len() == i,
            forall|k: int|
                0 <= k < i ==> rev_pts@[k].pt() == domain.spec_coset0_point(
                    rev_bits(k as nat, (log_n - 1) as nat),
                ),
        decreases half - i,
    {
        let j = reverse_bits_exec(i, log_n - 1);
        rev_pts.push(pts[j]);
        i = i + 1;
    }

    let mut out: Vec<Vec<Mersenne31>> = Vec::new();

    // Layer 0: y-coordinates.
    let mut layer0: Vec<Mersenne31> = Vec::new();
    let mut i0: usize = 0;
    while i0 < half
        invariant
            0 <= i0 <= half,
            domain.wf(),
            log_n == domain.log_n,
            half == pow2((log_n - 1) as nat),
            rev_pts@.len() == half,
            forall|k: int|
                0 <= k < half ==> rev_pts@[k].pt() == domain.spec_coset0_point(
                    rev_bits(k as nat, (log_n - 1) as nat),
                ),
            layer0@.len() == i0,
            forall|k: int|
                0 <= k < i0 ==> layer0@[k].val() == domain.spec_coset0_point(
                    rev_bits(k as nat, (log_n - 1) as nat),
                ).1,
        decreases half - i0,
    {
        layer0.push(rev_pts[i0].y);
        i0 = i0 + 1;
    }
    proof {
        assert(seq_vals(layer0@) =~= spec_twiddle_layer(*domain, 0));
    }
    out.push(layer0);

    // Layer 1: x-coordinates at stride 2.
    proof {
        vstd::arithmetic::power2::lemma_pow2_unfold((log_n - 1) as nat);
    }
    let quarter: usize = half / 2;
    let mut layer1: Vec<Mersenne31> = Vec::new();
    let mut i1: usize = 0;
    while i1 < quarter
        invariant
            0 <= i1 <= quarter,
            domain.wf(),
            log_n == domain.log_n,
            half == pow2((log_n - 1) as nat),
            2 * quarter == half,
            quarter == pow2((log_n - 2) as nat),
            rev_pts@.len() == half,
            forall|k: int|
                0 <= k < half ==> rev_pts@[k].pt() == domain.spec_coset0_point(
                    rev_bits(k as nat, (log_n - 1) as nat),
                ),
            layer1@.len() == i1,
            forall|k: int|
                0 <= k < i1 ==> layer1@[k].val() == domain.spec_coset0_point(
                    rev_bits((2 * k) as nat, (log_n - 1) as nat),
                ).0,
        decreases quarter - i1,
    {
        layer1.push(rev_pts[2 * i1].x);
        i1 = i1 + 1;
    }
    proof {
        assert(seq_vals(layer1@) =~= spec_twiddle_layer(*domain, 1));
    }
    out.push(layer1);

    // Deeper layers: the doubling recurrence at stride 2.
    let mut k: usize = 2;
    while k < log_n
        invariant
            2 <= k <= log_n,
            domain.wf(),
            log_n == domain.log_n,
            out@.len() == k,
            forall|m: int|
                0 <= m < k ==> seq_vals(#[trigger] out@[m]@) == spec_twiddle_layer(
                    *domain,
                    m as nat,
                ),
        decreases log_n - k,
    {
        let prev_len = out[k - 1].len();
        proof {
            assert(seq_vals(out@[k - 1int]@).len() == spec_twiddle_layer(
                *domain,
                (k - 1) as nat,
            ).len());
            vstd::arithmetic::power2::lemma_pow2_unfold((log_n - k) as nat);
        }
        let cur_len = prev_len / 2;
        let mut cur: Vec<Mersenne31> = Vec::new();
        let mut m: usize = 0;
        while m < cur_len
            invariant
                0 <= m <= cur_len,
                domain.wf(),
                log_n == domain.log_n,
                2 <= k < log_n,
                out@.len() == k,
                forall|q: int|
                    0 <= q < k ==> seq_vals(#[trigger] out@[q]@) == spec_twiddle_layer(
                        *domain,
                        q as nat,
                    ),
                prev_len == spec_twiddle_layer(*domain, (k - 1) as nat).len(),
                2 * cur_len == prev_len,
                cur_len == pow2((log_n - 1 - k) as nat),
                cur@.len() == m,
                forall|q: int|
                    0 <= q < m ==> cur@[q].val() == pi_x(
                        spec_twiddle_layer(*domain, (k - 1) as nat)[2 * q],
                    ),
            decreases cur_len - m,
        {
            let x = out[k - 1][2 * m];
            proof {
                assert(seq_vals(out@[k - 1int]@)[2 * m as int] == x.val());
            }
            cur.push(x.square().double().sub(Mersenne31::one()));
            m = m + 1;
        }
        proof {
            assert(seq_vals(cur@) =~= spec_twiddle_layer(*domain, k as nat));
        }
        out.push(cur);
        k = k + 1;
    }
    out
}

// ---------------------------------------------------------------------------
// Butterfly layers over flat row-major sequences.
// ---------------------------------------------------------------------------

/// One decimation-in-frequency butterfly layer: each block of `v.len() /
/// ts.len()` entries is split into halves `lo`/`hi`, which become
/// `lo + hi` and `(lo - hi) * t` for the block's twiddle `t`.
pub open spec fn dif_layer_val(v: Seq<int>, ts: Seq<int>, i: int) -> int {
    let blk = v.len() as int / ts.len() as int;
    let b = i / blk;
    let o = i % blk;
    if o < blk / 2 {
        fadd(v[i], v[i + blk / 2])
    } else {
        fmul(fsub(v[i - blk / 2], v[i]), ts[b])
    }
}

pub open spec fn dif_layer(v: Seq<int>, ts: Seq<int>) -> Seq<int> {
    Seq::new(v.len(), |i: int| dif_layer_val(v, ts, i))
}

/// One decimation-in-time butterfly layer: halves `lo`/`hi` become
/// `lo + t * hi` and `lo - t * hi`.
pub open spec fn dit_layer_val(v: Seq<int>, ts: Seq<int>, i: int) -> int {
    let blk = v.len() as int / ts.len() as int;
    let b = i / blk;
    let o = i % blk;
    if o < blk / 2 {
        fadd(v[i], fmul(ts[b], v[i + blk / 2]))
    } else {
        fsub(v[i - blk / 2], fmul(ts[b], v[i]))
    }
}

pub open spec fn dit_layer(v: Seq<int>, ts: Seq<int>) -> Seq<int> {
    Seq::new(v.len(), |i: int| dit_layer_val(v, ts, i))
}

/// Decimation-in-frequency layers applied first to last.
pub open spec fn apply_dif_layers(v: Seq<int>, tss: Seq<Seq<int>>) -> Seq<int>
    decreases tss.len(),
{
    if tss.len() == 0 {
        v
    } else {
        apply_dif_layers(dif_layer(v, tss.first()), tss.drop_first())
    }
}

/// Decimation-in-time layers applied last to first.
pub open spec fn apply_dit_layers_rev(v: Seq<int>, tss: Seq<Seq<int>>) -> Seq<int>
    decreases tss.len(),
{
    if tss.len() == 0 {
        v
    } else {
        apply_dit_layers_rev(dit_layer(v, tss.last()), tss.drop_last())
    }
}

/// Every entry multiplied by `c`.
pub open spec fn scale_seq(v: Seq<int>, c: int) -> Seq<int> {
    Seq::new(v.len(), |i: int| fmul(v[i], c))
}

/// The pointwise inverses of a twiddle table.
pub open spec fn inv_layers(tss: Seq<Seq<int>>) -> Seq<Seq<int>> {
    Seq::new(tss.len(), |k: int| Seq::new(tss[k].len(), |j: int| finv(tss[k][j])))
}

/// `v` truncated or extended with zeros to length `len`.
pub open spec fn zero_pad(v: Seq<int>, len: nat) -> Seq<int> {
    Seq::new(len, |i: int| if i < v.len() { v[i] } else { 0 })
}

/// Which flat indices a block-structured butterfly pass has already
/// written: all of blocks before `b`, and in block `b` the first `o`
/// entries of each half.
spec fn pass_done(i: int, blk: int, b: int, o: int) -> bool {
    let bb = i / blk;
    let oo = i % blk;
    bb < b || (bb == b && (oo < o || (blk / 2 <= oo && oo < blk / 2 + o)))
}

/// Advancing one butterfly within a block marks exactly the two entries
/// just written.
proof fn lemma_pass_done_step(q: int, blk: int, b: int, o: int)
    requires
        blk >= 2,
        blk % 2 == 0,
        0 <= o < blk / 2,
        0 <= b,
        0 <= q,
        q != b * blk + o,
        q != b * blk + o + blk / 2,
    ensures
        pass_done(q, blk, b, o + 1) == pass_done(q, blk, b, o),
{
    vstd::arithmetic::div_mod::lemma_fundamental_div_mod(q, blk);
    let bb = q / blk;
    let oo = q % blk;
    assert(q == blk * bb + oo);
    assert(bb * blk == blk * bb) by (nonlinear_arith);
    if bb == b && oo == o {
        assert(q == b * blk + o);
    }
    if bb == b && oo == blk / 2 + o {
        assert(q == b * blk + o + blk / 2);
    }
}

/// In-place decimation-in-frequency pass.
fn dif_layer_exec(vals: &mut Vec<Mersenne31>, ts: &Vec<Mersenne31>, blk: usize)
    requires
        ts@.len() >= 1,
        blk >= 2,
        blk % 2 == 0,
        old(vals)@.len() == ts@.len() * blk,
    ensures
        final(vals)@.len() == old(vals)@.len(),
        seq_vals(final(vals)@) == dif_layer(seq_vals(old(vals)@), seq_vals(ts@)),
{
    let ghost orig = seq_vals(old(vals)@);
    let ghost tsv = seq_vals(ts@);
    let _total_len = vals.len();
    let nblocks = ts.len();
    let half = blk / 2;
    proof {
        assert(orig.len() == old(vals)@.len());
        assert(orig.len() == (blk as int) * (ts@.len() as int)) by (nonlinear_arith)
            requires
                orig.len() == ts@.len() * blk,
        ;
        vstd::arithmetic::div_mod::lemma_fundamental_div_mod_converse(
            orig.len() as int,
            ts@.len() as int,
            blk as int,
            0,
        );
    }
    let mut b: usize = 0;
    while b < nblocks
        invariant
            0 <= b <= nblocks,
            nblocks == ts@.len(),
            blk >= 2,
            blk % 2 == 0,
            half == blk / 2,
            vals@.len() == orig.len(),
            orig.len() <= usize::MAX,
            orig.len() == ts@.len() * blk,
            orig.len() as int / ts@.len() as int == blk,
            orig == seq_vals(old(vals)@),
            tsv == seq_vals(ts@),
            forall|i: int|
                0 <= i < orig.len() ==> #[trigger] vals@[i].val() == (if pass_done(
                    i,
                    blk as int,
                    b as int,
                    0,
                ) {
                    dif_layer_val(orig, tsv, i)
                } else {
                    orig[i]
                }),
        decreases nblocks - b,
    {
        let t = ts[b];
        let mut o: usize = 0;
        while o < half
            invariant
                0 <= o <= half,
                0 <= b < nblocks,
                nblocks == ts@.len(),
                blk >= 2,
                blk % 2 == 0,
                half == blk / 2,
                vals@.len() == orig.len(),
                orig.len() <= usize::MAX,
                orig.len() == ts@.len() * blk,
                orig.len() as int / ts@.len() as int == blk,
                orig == seq_vals(old(vals)@),
                tsv == seq_vals(ts@),
                t == ts@[b as int],
                forall|i: int|
                    0 <= i < orig.len() ==> #[trigger] vals@[i].val() == (if pass_done(
                        i,
                        blk as int,
                        b as int,
                        o as int,
                    ) {
                        dif_layer_val(orig, tsv, i)
                    } else {
                        orig[i]
                    }),
            decreases half - o,
        {
            proof {
                crate::matrix::lemma_row_index(
                    b as int,
                    (o + half) as int,
                    blk as int,
                    nblocks as int,
                    orig.len() as int,
                );
                vstd::arithmetic::div_mod::lemma_fundamental_div_mod_converse(
                    (b * blk + o) as int,
                    blk as int,
                    b as int,
                    o as int,
                );
                vstd::arithmetic::div_mod::lemma_fundamental_div_mod_converse(
                    (b * blk + o + half) as int,
                    blk as int,
                    b as int,
                    (o + half) as int,
                );
            }
            let i = b * blk + o;
            let j = i + half;
            let lo = vals[i];
            let hi = vals[j];
            vals.set(i, lo.add(hi));
            vals.set(j, lo.sub(hi).mul(t));
            proof {
                assert forall|q: int| 0 <= q < orig.len() implies #[trigger] vals@[q].val() == (
                if pass_done(q, blk as int, b as int, o as int + 1) {
                    dif_layer_val(orig, tsv, q)
                } else {
                    orig[q]
                }) by {
                    if q != i && q != j {
                        lemma_pass_done_step(q, blk as int, b as int, o as int);
                    }
                }
            }
            o = o + 1;
        }
        proof {
            assert forall|q: int| 0 <= q < orig.len() implies (pass_done(
                q,
                blk as int,
                b as int,
                half as int,
            ) == pass_done(q, blk as int, b as int + 1, 0)) by {
                vstd::arithmetic::div_mod::lemma_remainder_lower(q, blk as int);
                vstd::arithmetic::div_mod::lemma_remainder_upper(q, blk as int);
            }
        }
        b = b + 1;
    }
    proof {
        assert forall|q: int| 0 <= q < orig.len() implies pass_done(
            q,
            blk as int,
            nblocks as int,
            0,
        ) by {
            assert(orig.len() == (blk as int) * (nblocks as int)) by (nonlinear_arith)
                requires
                    orig.len() == ts@.len() * blk,
                    nblocks == ts@.len(),
            ;
            vstd::arithmetic::div_mod::lemma_multiply_divide_lt(q, blk as int, nblocks as int);
        }
        assert(seq_vals(vals@) =~= dif_layer(orig, tsv));
    }
}

/// In-place decimation-in-time pass.
fn dit_layer_exec(vals: &mut Vec<Mersenne31>, ts: &Vec<Mersenne31>, blk: usize)
    requires
        ts@.len() >= 1,
        blk >= 2,
        blk % 2 == 0,
        old(vals)@.len() == ts@.len() * blk,
    ensures
        final(vals)@.len() == old(vals)@.len(),
        seq_vals(final(vals)@) == dit_layer(seq_vals(old(vals)@), seq_vals(ts@)),
{
    let ghost orig = seq_vals(old(vals)@);
    let ghost tsv = seq_vals(ts@);
    let _total_len = vals.len();
    let nblocks = ts.len();
    let half = blk / 2;
    proof {
        assert(orig.len() == old(vals)@.len());
        assert(orig.len() == (blk as int) * (ts@.len() as int)) by (nonlinear_arith)
            requires
                orig.len() == ts@.len() * blk,
        ;
        vstd::arithmetic::div_mod::lemma_fundamental_div_mod_converse(
            orig.len() as int,
            ts@.len() as int,
            blk as int,
            0,
        );
    }
    let mut b: usize = 0;
    while b < nblocks
        invariant
            0 <= b <= nblocks,
            nblocks == ts@.len(),
            blk >= 2,
            blk % 2 == 0,
            half == blk / 2,
            vals@.len() == orig.len(),
            orig.len() <= usize::MAX,
            orig.len() == ts@.len() * blk,
            orig.len() as int / ts@.len() as int == blk,
            orig == seq_vals(old(vals)@),
            tsv == seq_vals(ts@),
            forall|i: int|
                0 <= i < orig.len() ==> #[trigger] vals@[i].val() == (if pass_done(
                    i,
                    blk as int,
                    b as int,
                    0,
                ) {
                    dit_layer_val(orig, tsv, i)
                } else {
                    orig[i]
                }),
        decreases nblocks - b,
    {
        let t = ts[b];
        let mut o: usize = 0;
        while o < half
            invariant
                0 <= o <= half,
                0 <= b < nblocks,
                nblocks == ts@.len(),
                blk >= 2,
                blk % 2 == 0,
                half == blk / 2,
                vals@.len() == orig.len(),
                orig.len() <= usize::MAX,
                orig.len() == ts@.len() * blk,
                orig.len() as int / ts@.len() as int == blk,
                orig == seq_vals(old(vals)@),
                tsv == seq_vals(ts@),
                t == ts@[b as int],
                forall|i: int|
                    0 <= i < orig.len() ==> #[trigger] vals@[i].val() == (if pass_done(
                        i,
                        blk as int,
                        b as int,
                        o as int,
                    ) {
                        dit_layer_val(orig, tsv, i)
                    } else {
                        orig[i]
                    }),
            decreases half - o,
        {
            proof {
                crate::matrix::lemma_row_index(
                    b as int,
                    (o + half) as int,
                    blk as int,
                    nblocks as int,
                    orig.len() as int,
                );
                vstd::arithmetic::div_mod::lemma_fundamental_div_mod_converse(
                    (b * blk + o) as int,
                    blk as int,
                    b as int,
                    o as int,
                );
                vstd::arithmetic::div_mod::lemma_fundamental_div_mod_converse(
                    (b * blk + o + half) as int,
                    blk as int,
                    b as int,
                    (o + half) as int,
                );
            }
            let i = b * blk + o;
            let j = i + half;
            let lo = vals[i];
            let hi = vals[j];
            let prod = t.mul(hi);
            vals.set(i, lo.add(prod));
            vals.set(j, lo.sub(prod));
            proof {
                assert forall|q: int| 0 <= q < orig.len() implies #[trigger] vals@[q].val() == (
                if pass_done(q, blk as int, b as int, o as int + 1) {
                    dit_layer_val(orig, tsv, q)
                } else {
                    orig[q]
                }) by {
                    if q != i && q != j {
                        lemma_pass_done_step(q, blk as int, b as int, o as int);
                    }
                }
            }
            o = o + 1;
        }
        proof {
            assert forall|q: int| 0 <= q < orig.len() implies (pass_done(
                q,
                blk as int,
                b as int,
                half as int,
            ) == pass_done(q, blk as int, b as int + 1, 0)) by {
                vstd::arithmetic::div_mod::lemma_remainder_lower(q, blk as int);
                vstd::arithmetic::div_mod::lemma_remainder_upper(q, blk as int);
            }
        }
        b = b + 1;
    }
    proof {
        assert forall|q: int| 0 <= q < orig.len() implies pass_done(
            q,
            blk as int,
            nblocks as int,
            0,
        ) by {
            assert(orig.len() == (blk as int) * (nblocks as int)) by (nonlinear_arith)
                requires
                    orig.len() == ts@.len() * blk,
                    nblocks == ts@.len(),
            ;
            vstd::arithmetic::div_mod::lemma_multiply_divide_lt(q, blk as int, nblocks as int);
        }
        assert(seq_vals(vals@) =~= dit_layer(orig, tsv));
    }
}


// ---------------------------------------------------------------------------
// Evaluations on a circle domain.
// ---------------------------------------------------------------------------

/// Each twiddle layer `k` has `2^(log_n - 1 - k)` entries.
pub proof fn lemma_twiddle_layer_len(d: CircleDomain, k: nat)
    requires
        d.wf(),
        k < d.log_n,
    ensures
        spec_twiddle_layer(d, k).len() == pow2((d.log_n - 1 - k) as nat),
{
}

/// Rows gathered through the cfft permutation: row `i` of the result is row
/// `cfft_perm(i)` of the input.
pub open spec fn cfft_permuted(v: Seq<int>, w: nat, log_n: nat) -> Seq<int> {
    Seq::new(v.len(), |idx: int| v[cfft_perm(log_n, (idx / w as int) as nat) * w + (idx % w as int)])
}

/// Gather the rows of a matrix through the cfft permutation.  The
/// permutation is an involution, so the same gather converts in both
/// directions between natural and cfft order.
pub fn cfft_permute_rows(m: &RowMajorMat, log_n: usize) -> (r: RowMajorMat)
    requires
        m.wf(),
        1 <= log_n <= 30,
        m.spec_height() == pow2(log_n as nat),
    ensures
        r.wf(),
        r.width == m.width,
        r.spec_height() == m.spec_height(),
        r.vals() == cfft_permuted(m.vals(), m.width as nat, log_n as nat),
{
    proof {
        assert(m.spec_height() * (m.width as nat) == m.values@.len()) by {
            vstd::arithmetic::div_mod::lemma_fundamental_div_mod(
                m.values@.len() as int,
                m.width as int,
            );
        };
        vstd::arithmetic::power2::lemma_pow2_unfold((log_n + 1) as nat);
    }
    let _total = m.values.len();
    let n = m.height();
    let w = m.width;
    let mut out: Vec<Mersenne31> = Vec::new();
    let mut i: usize = 0;
    while i < n
        invariant
            0 <= i <= n,
            m.wf(),
            1 <= log_n <= 30,
            w == m.width,
            n == m.spec_height(),
            n == pow2(log_n as nat),
            m.spec_height() * (m.width as nat) == m.values@.len(),
            m.values@.len() <= usize::MAX,
            out@.len() == i * w,
            forall|idx: int|
                0 <= idx < i * w ==> #[trigger] out@[idx].val() == m.vals()[cfft_perm(
                    log_n as nat,
                    (idx / w as int) as nat,
                ) * w + (idx % w as int)],
        decreases n - i,
    {
        proof {
            vstd::arithmetic::power2::lemma_pow2_unfold((log_n + 1) as nat);
        }
        let pi = cfft_permute_index(i, log_n);
        let mut c: usize = 0;
        while c < w
            invariant
                0 <= c <= w,
                0 <= i < n,
                m.wf(),
                1 <= log_n <= 30,
                w == m.width,
                n == m.spec_height(),
                n == pow2(log_n as nat),
                m.spec_height() * (m.width as nat) == m.values@.len(),
                m.values@.len() <= usize::MAX,
                pi == cfft_perm(log_n as nat, i as nat),
                pi < n,
                out@.len() == i * w + c,
                forall|idx: int|
                    0 <= idx < i * w + c ==> #[trigger] out@[idx].val() == m.vals()[cfft_perm(
                        log_n as nat,
                        (idx / w as int) as nat,
                    ) * w + (idx % w as int)],
            decreases w - c,
        {
            proof {
                crate::matrix::lemma_row_index(
                    pi as int,
                    c as int,
                    w as int,
                    n as int,
                    m.values@.len() as int,
                );
                crate::matrix::lemma_row_index(i as int, c as int, w as int, n as int, m.values@.len() as int);
                vstd::arithmetic::div_mod::lemma_fundamental_div_mod_converse(
                    (i * w + c) as int,
                    w as int,
                    i as int,
                    c as int,
                );
            }
            out.push(m.values[pi * w + c]);
            c = c + 1;
        }
        proof {
            assert(i * w + w == (i + 1) * w) by (nonlinear_arith);
        }
        i = i + 1;
    }
    proof {
        assert(n * w == m.values@.len());
        let r0 = seq_vals(out@);
        assert(r0.len() == m.vals().len());
        assert(seq_vals(out@) =~= cfft_permuted(m.vals(), m.width as nat, log_n as nat));
        vstd::arithmetic::div_mod::lemma_mod_multiples_vanish(n as int, 0, w as int);
    }
    RowMajorMat::new(out, w)
}

/// A matrix of evaluations over a circle domain, held in cfft order.
#[derive(Clone, Debug)]
pub struct CircleEvaluations {
    pub domain: CircleDomain,
    pub values: RowMajorMat,
}

impl CircleEvaluations {
    pub open spec fn wf(self) -> bool {
        &&& self.domain.wf()
        &&& self.values.wf()
        &&& self.values.spec_height() == pow2(self.domain.log_n as nat)
    }

    /// Wrap a matrix whose rows are already in cfft order.
    pub fn from_cfft_order(domain: CircleDomain, values: RowMajorMat) -> (r: Self)
        requires
            domain.wf(),
            values.wf(),
            values.spec_height() == pow2(domain.log_n as nat),
        ensures
            r.domain == domain,
            r.values == values,
            r.wf(),
    {
        CircleEvaluations { domain, values }
    }

    /// Wrap a matrix whose rows are in the natural domain order.
    pub fn from_natural_order(domain: CircleDomain, values: RowMajorMat) -> (r: Self)
        requires
            domain.wf(),
            values.wf(),
            values.spec_height() == pow2(domain.log_n as nat),
        ensures
            r.domain == domain,
            r.wf(),
            r.values.width == values.width,
            r.values.vals() == cfft_permuted(values.vals(), values.width as nat, domain.log_n as nat),
    {
        CircleEvaluations { domain, values: cfft_permute_rows(&values, domain.log_n) }
    }

    /// The underlying matrix, in cfft order.
    pub fn to_cfft_order(self) -> (r: RowMajorMat)
        ensures
            r == self.values,
    {
        self.values
    }

    /// The underlying matrix, permuted back to natural order.
    pub fn to_natural_order(self) -> (r: RowMajorMat)
        requires
            self.wf(),
        ensures
            r.wf(),
            r.width == self.values.width,
            r.vals() == cfft_permuted(
                self.values.vals(),
                self.values.width as nat,
                self.domain.log_n as nat,
            ),
    {
        cfft_permute_rows(&self.values, self.domain.log_n)
    }

    /// Interpolation: the inverse circle FFT.  Applies the
    /// decimation-in-frequency layers with inverted twiddles, then divides
    /// by the domain size, giving the coefficients of the evaluations in
    /// the circle basis.
    pub fn interpolate(self) -> (r: RowMajorMat)
        requires
            self.wf(),
            self.domain.log_n >= 2,
            twiddles_invertible(self.domain),
        ensures
            r.wf(),
            r.width == self.values.width,
            r.vals() == scale_seq(
                apply_dif_layers(self.values.vals(), inv_layers(spec_twiddles(self.domain))),
                finv(pow2(self.domain.log_n as nat) as int),
            ),
    {
        let d = self.domain;
        let w = self.values.width;
        let log_n = d.log_n;
        let twiddles = compute_twiddles(&d);
        let mut vals = self.values.values;
        let _total = vals.len();
        let ghost orig = seq_vals(vals@);
        let ghost itss = inv_layers(spec_twiddles(d));
        proof {
            assert(self.values.spec_height() * (w as nat) == orig.len()) by {
                vstd::arithmetic::div_mod::lemma_fundamental_div_mod(
                    self.values.values@.len() as int,
                    w as int,
                );
            };
            assert(itss.len() == log_n);
            assert(itss.subrange(0, log_n as int) =~= itss);
        }
        let mut k: usize = 0;
        while k < log_n
            invariant
                0 <= k <= log_n,
                d == self.domain,
                d.wf(),
                log_n == d.log_n,
                log_n >= 2,
                w >= 1,
                twiddles_invertible(d),
                twiddles@.len() == log_n,
                forall|m: int|
                    0 <= m < log_n ==> seq_vals(#[trigger] twiddles@[m]@) == spec_twiddle_layer(
                        d,
                        m as nat,
                    ),
                itss == inv_layers(spec_twiddles(d)),
                itss.len() == log_n,
                vals@.len() == orig.len(),
                orig.len() <= usize::MAX,
                orig.len() == pow2(log_n as nat) * (w as nat),
                apply_dif_layers(seq_vals(vals@), itss.subrange(k as int, log_n as int))
                    == apply_dif_layers(orig, itss),
            decreases log_n - k,
        {
            proof {
                lemma_twiddle_layer_len(d, k as nat);
            }
            let layer_len = twiddles[k].len();
            let mut inv_ts: Vec<Mersenne31> = Vec::new();
            let mut j: usize = 0;
            while j < layer_len
                invariant
                    0 <= j <= layer_len,
                    0 <= k < log_n,
                    d.wf(),
                    log_n == d.log_n,
                    twiddles_invertible(d),
                    twiddles@.len() == log_n,
                    forall|m: int|
                        0 <= m < log_n ==> seq_vals(#[trigger] twiddles@[m]@) == spec_twiddle_layer(
                            d,
                            m as nat,
                        ),
                    layer_len == spec_twiddle_layer(d, k as nat).len(),
                    inv_ts@.len() == j,
                    forall|q: int|
                        0 <= q < j ==> #[trigger] inv_ts@[q].val() == finv(
                            spec_twiddle_layer(d, k as nat)[q],
                        ),
                decreases layer_len - j,
            {
                proof {
                    assert(seq_vals(twiddles@[k as int]@)[j as int] == spec_twiddle_layer(
                        d,
                        k as nat,
                    )[j as int]);
                    assert(finv_exists(spec_twiddle_layer(d, k as nat)[j as int]));
                }
                inv_ts.push(twiddles[k][j].inverse());
                j = j + 1;
            }
            proof {
                assert(seq_vals(inv_ts@) =~= itss[k as int]);
                lemma_twiddle_layer_len(d, k as nat);
                vstd::arithmetic::power2::lemma_pow2_adds(
                    (log_n - 1 - k) as nat,
                    (k + 1) as nat,
                );
                vstd::arithmetic::power2::lemma_pow2_pos((log_n - 1 - k) as nat);
            }
            let blk = vals.len() / inv_ts.len();
            proof {
                let ghost ll = pow2((log_n - 1 - k) as nat) as int;
                let ghost bb = pow2((k + 1) as nat) as int * (w as int);
                assert(orig.len() as int == ll * bb) by (nonlinear_arith)
                    requires
                        orig.len() == pow2(log_n as nat) * (w as nat),
                        pow2(log_n as nat) == pow2((log_n - 1 - k) as nat) * pow2((k + 1) as nat),
                        ll == pow2((log_n - 1 - k) as nat) as int,
                        bb == pow2((k + 1) as nat) as int * (w as int),
                ;
                assert(0 <= bb);
                vstd::arithmetic::div_mod::lemma_fundamental_div_mod_converse(
                    orig.len() as int,
                    ll,
                    bb,
                    0,
                );
                assert(blk == bb);
                vstd::arithmetic::power2::lemma_pow2_unfold((k + 1) as nat);
                assert(bb == 2 * (pow2(k as nat) as int * w as int)) by (nonlinear_arith)
                    requires
                        bb == pow2((k + 1) as nat) as int * (w as int),
                        pow2((k + 1) as nat) == 2 * pow2(k as nat),
                ;
                vstd::arithmetic::power2::lemma_pow2_pos(k as nat);
                assert(bb >= 2) by (nonlinear_arith)
                    requires
                        bb == 2 * (pow2(k as nat) as int * w as int),
                        pow2(k as nat) >= 1,
                        w >= 1,
                ;
                assert(orig.len() == inv_ts@.len() * blk) by (nonlinear_arith)
                    requires
                        orig.len() as int == ll * bb,
                        inv_ts@.len() == ll,
                        blk == bb,
                ;
            }
            dif_layer_exec(&mut vals, &inv_ts, blk);
            proof {
                assert(itss.subrange(k as int, log_n as int).first() == itss[k as int]);
                assert(itss.subrange(k as int, log_n as int).drop_first() =~= itss.subrange(
                    k as int + 1,
                    log_n as int,
                ));
            }
            k = k + 1;
        }
        proof {
            assert(itss.subrange(log_n as int, log_n as int) =~= Seq::<Seq<int>>::empty());
            assert(apply_dif_layers(seq_vals(vals@), Seq::<Seq<int>>::empty()) == seq_vals(vals@));
        }
        // Divide by the domain size.
        proof {
            vstd::bits::lemma_usize_pow2_no_overflow(log_n as nat);
            vstd::bits::lemma_usize_shl_is_mul(1usize, log_n);
        }
        let n: usize = 1usize << log_n;
        proof {
            vstd::arithmetic::power2::lemma2_to64();
            vstd::arithmetic::power2::lemma2_to64_rest();
            if log_n < 31 {
                vstd::arithmetic::power2::lemma_pow2_strictly_increases(log_n as nat, 31);
            }
            assert(pow2(31) == 0x8000_0000);
            // 2^(31 - log_n) is the inverse of 2^log_n modulo P.
            vstd::arithmetic::power2::lemma_pow2_adds((31 - log_n) as nat, log_n as nat);
            if (31 - log_n) < 31 {
                vstd::arithmetic::power2::lemma_pow2_strictly_increases((31 - log_n) as nat, 31);
            }
            assert((pow2((31 - log_n) as nat) as int * pow2(log_n as nat) as int) % (P as int)
                == 1);
            assert(finv_exists(pow2(log_n as nat) as int));
        }
        let hinv = Mersenne31::new(n as u32).inverse();
        proof {
            vstd::arithmetic::div_mod::lemma_small_mod(n as nat, P as nat);
        }
        let ghost beforem = vals@;
        let len = vals.len();
        let mut idx: usize = 0;
        while idx < len
            invariant
                0 <= idx <= len,
                vals@.len() == len,
                beforem.len() == len,
                hinv.val() == finv(pow2(log_n as nat) as int),
                forall|q: int| idx <= q < len ==> vals@[q] == beforem[q],
                forall|q: int|
                    0 <= q < idx ==> #[trigger] vals@[q].val() == fmul(
                        seq_vals(beforem)[q],
                        hinv.val(),
                    ),
            decreases len - idx,
        {
            let x = vals[idx];
            vals.set(idx, x.mul(hinv));
            idx = idx + 1;
        }
        proof {
            assert(seq_vals(vals@) =~= scale_seq(seq_vals(beforem), hinv.val()));
            vstd::arithmetic::div_mod::lemma_mod_multiples_vanish(
                pow2(log_n as nat) as int,
                0,
                w as int,
            );
            assert((pow2(log_n as nat) * (w as nat)) as int % (w as int) == 0) by (nonlinear_arith)
                requires
                    w >= 1,
                    ((w as int) * (pow2(log_n as nat) as int)) % (w as int) == 0,
            ;
        }
        RowMajorMat::new(vals, w)
    }
}


// ---------------------------------------------------------------------------
// Evaluation (the forward FFT), with implicit zero padding.
// ---------------------------------------------------------------------------

/// `copies` repetitions of `c` padded with zeros to segments of `seg`.
pub open spec fn rep_pad(c: Seq<int>, copies: nat, seg: nat) -> Seq<int> {
    Seq::new(
        copies * seg,
        |i: int| if (i % seg as int) < c.len() {
            c[i % seg as int]
        } else {
            0
        },
    )
}

/// All entries lie in `[0, P)`.
pub open spec fn all_canon(v: Seq<int>) -> bool {
    forall|i: int| 0 <= i < v.len() ==> 0 <= #[trigger] v[i] < P
}

/// A decimation-in-time layer on a repeated-and-padded vector only
/// duplicates it: the upper half of every block is zero, so both butterfly
/// outputs equal the lower input.
proof fn lemma_dit_rep_pad(c: Seq<int>, copies: nat, seg: nat, ts: Seq<int>)
    requires
        ts.len() == copies,
        copies >= 1,
        seg % 2 == 0,
        seg >= 2,
        c.len() <= seg / 2,
        all_canon(c),
    ensures
        dit_layer(rep_pad(c, copies, seg), ts) == rep_pad(c, 2 * copies, (seg / 2) as nat),
{
    let v = rep_pad(c, copies, seg);
    let half = seg as int / 2;
    assert(v.len() == copies * seg);
    assert(v.len() as int == (seg as int) * (copies as int)) by (nonlinear_arith)
        requires
            v.len() == copies * seg,
    ;
    vstd::arithmetic::div_mod::lemma_fundamental_div_mod_converse(
        v.len() as int,
        ts.len() as int,
        seg as int,
        0,
    );
    vstd::arithmetic::div_mod::lemma_fundamental_div_mod(seg as int, 2);
    assert(seg == 2 * (seg / 2));
    assert((2 * copies) * ((seg / 2) as nat) == copies * seg) by (nonlinear_arith)
        requires
            seg == 2 * (seg / 2),
    ;
    assert(rep_pad(c, 2 * copies, (seg / 2) as nat).len() == v.len());
    assert forall|i: int| 0 <= i < v.len() implies dit_layer(v, ts)[i] == rep_pad(
        c,
        2 * copies,
        (seg / 2) as nat,
    )[i] by {
        vstd::arithmetic::div_mod::lemma_fundamental_div_mod(i, seg as int);
        let b = i / seg as int;
        let o = i % seg as int;
        assert(i == seg * b + o);
        assert(b * seg == seg * b) by (nonlinear_arith);
        vstd::arithmetic::div_mod::lemma_multiply_divide_lt(i, seg as int, copies as int);
        assert(b < copies);
        assert(seg * b + seg <= (seg as int) * (copies as int)) by (nonlinear_arith)
            requires
                b + 1 <= copies,
                seg >= 2,
        ;
        assert(seg * b == (2 * b) * half) by (nonlinear_arith)
            requires
                seg == 2 * half,
        ;
        assert(seg * b == (2 * b + 1) * half - half) by (nonlinear_arith)
            requires
                seg == 2 * half,
        ;
        if o < half {
            vstd::arithmetic::div_mod::lemma_fundamental_div_mod_converse(
                i + half,
                seg as int,
                b,
                o + half,
            );
            // the partner entry is zero
            assert(v[i + half] == 0);
            assert(fmul(ts[b], 0) == 0);
            vstd::arithmetic::div_mod::lemma_fundamental_div_mod_converse(
                i,
                half,
                2 * b,
                o,
            );
            if o < c.len() {
                vstd::arithmetic::div_mod::lemma_small_mod(c[o] as nat, P as nat);
            }
        } else {
            vstd::arithmetic::div_mod::lemma_fundamental_div_mod_converse(
                i - half,
                seg as int,
                b,
                o - half,
            );
            assert(v[i] == 0);
            assert(fmul(ts[b], 0) == 0);
            vstd::arithmetic::div_mod::lemma_fundamental_div_mod_converse(
                i,
                half,
                2 * b + 1,
                o - half,
            );
            if o - half < c.len() {
                vstd::arithmetic::div_mod::lemma_small_mod(c[o - half] as nat, P as nat);
            }
        }
    }
    assert(dit_layer(v, ts) =~= rep_pad(c, 2 * copies, (seg / 2) as nat));
}

/// Applying the top `j` decimation-in-time layers to the zero-padding of
/// `c` yields `2^j` padded copies; the remaining layers are unchanged.
proof fn lemma_rep_fold(d: CircleDomain, c: Seq<int>, w: nat, lh: nat, j: nat)
    requires
        d.wf(),
        w >= 1,
        lh <= d.log_n,
        j <= d.log_n - lh,
        c.len() == pow2(lh) * w,
        all_canon(c),
    ensures
        apply_dit_layers_rev(
            zero_pad(c, pow2(d.log_n as nat) * w),
            spec_twiddles(d),
        ) == apply_dit_layers_rev(
            rep_pad(c, pow2(j), pow2((d.log_n - j) as nat) * w),
            spec_twiddles(d).subrange(0, d.log_n - j),
        ),
    decreases j,
{
    let ll = d.log_n as nat;
    if j == 0 {
        assert(pow2(0) == 1) by {
            vstd::arithmetic::power2::lemma2_to64();
        };
        assert(zero_pad(c, pow2(ll) * w) =~= rep_pad(c, 1, pow2(ll) * w)) by {
            assert forall|i: int| 0 <= i < pow2(ll) * w implies #[trigger] zero_pad(
                c,
                pow2(ll) * w,
            )[i] == rep_pad(c, 1, pow2(ll) * w)[i] by {
                vstd::arithmetic::div_mod::lemma_small_mod(i as nat, pow2(ll) * w);
            }
        };
        assert(spec_twiddles(d).subrange(0, d.log_n as int) =~= spec_twiddles(d));
    } else {
        lemma_rep_fold(d, c, w, lh, (j - 1) as nat);
        let prev = rep_pad(c, pow2((j - 1) as nat), pow2((ll - (j - 1)) as nat) * w);
        let sub_prev = spec_twiddles(d).subrange(0, d.log_n - (j - 1));
        // one unfold of the fold peels the highest remaining layer
        assert(sub_prev.len() == ll - (j - 1));
        assert(sub_prev.last() == spec_twiddle_layer(d, (ll - j) as nat));
        lemma_twiddle_layer_len(d, (ll - j) as nat);
        assert(spec_twiddle_layer(d, (ll - j) as nat).len() == pow2((j - 1) as nat));
        // the segment shrinks by half
        vstd::arithmetic::power2::lemma_pow2_unfold((ll - (j - 1)) as nat);
        let seg = pow2((ll - (j - 1)) as nat) * w;
        assert(seg == 2 * (pow2((ll - j) as nat) * w)) by (nonlinear_arith)
            requires
                pow2((ll - (j - 1)) as nat) == 2 * pow2((ll - j) as nat),
                seg == pow2((ll - (j - 1)) as nat) * w,
        ;
        assert(seg % 2 == 0);
        assert(seg as int / 2 == pow2((ll - j) as nat) * w);
        // the copies still leave zeros: c.len() <= seg / 2
        assert(c.len() <= seg / 2) by {
            assert(pow2(lh) <= pow2((ll - j) as nat)) by {
                if lh < ll - j {
                    vstd::arithmetic::power2::lemma_pow2_strictly_increases(lh, (ll - j) as nat);
                }
            };
            assert(pow2(lh) * w <= pow2((ll - j) as nat) * w) by (nonlinear_arith)
                requires
                    pow2(lh) <= pow2((ll - j) as nat),
                    w >= 1,
            ;
        };
        vstd::arithmetic::power2::lemma_pow2_pos((j - 1) as nat);
        vstd::arithmetic::power2::lemma_pow2_pos((ll - j) as nat);
        assert(seg >= 2) by (nonlinear_arith)
            requires
                seg == 2 * (pow2((ll - j) as nat) * w),
                pow2((ll - j) as nat) >= 1,
                w >= 1,
        ;
        lemma_dit_rep_pad(c, pow2((j - 1) as nat), seg, sub_prev.last());
        vstd::arithmetic::power2::lemma_pow2_unfold(j);
        assert(2 * pow2((j - 1) as nat) == pow2(j));
        assert(apply_dit_layers_rev(prev, sub_prev) == apply_dit_layers_rev(
            dit_layer(prev, sub_prev.last()),
            sub_prev.drop_last(),
        ));
        assert(sub_prev.drop_last() =~= spec_twiddles(d).subrange(0, d.log_n - j));
        assert(dit_layer(prev, sub_prev.last()) == rep_pad(
            c,
            pow2(j),
            pow2((ll - j) as nat) * w,
        ));
    }
}

/// Butterfly layers preserve the length of the value vector.
pub proof fn lemma_apply_dif_len(v: Seq<int>, tss: Seq<Seq<int>>)
    ensures
        apply_dif_layers(v, tss).len() == v.len(),
    decreases tss.len(),
{
    if tss.len() > 0 {
        lemma_apply_dif_len(dif_layer(v, tss.first()), tss.drop_first());
    }
}

/// Butterfly layers preserve the length of the value vector.
pub proof fn lemma_apply_dit_len(v: Seq<int>, tss: Seq<Seq<int>>)
    ensures
        apply_dit_layers_rev(v, tss).len() == v.len(),
    decreases tss.len(),
{
    if tss.len() > 0 {
        lemma_apply_dit_len(dit_layer(v, tss.last()), tss.drop_last());
    }
}

impl CircleEvaluations {
    /// Evaluation: the forward circle FFT.  Coefficients whose height is
    /// smaller than the domain are implicitly zero-padded; the initial
    /// butterfly layers on such padding only duplicate the rows, so the
    /// implementation repeats the rows and skips those layers.
    pub fn evaluate(domain: CircleDomain, coeffs: RowMajorMat) -> (r: CircleEvaluations)
        requires
            domain.wf(),
            domain.log_n >= 2,
            coeffs.wf(),
            exists|lh: nat| lh <= domain.log_n && #[trigger] pow2(lh) == coeffs.spec_height(),
        ensures
            r.domain == domain,
            r.wf(),
            r.values.width == coeffs.width,
            r.values.vals() == apply_dit_layers_rev(
                zero_pad(coeffs.vals(), pow2(domain.log_n as nat) * coeffs.width as nat),
                spec_twiddles(domain),
            ),
    {
        let log_n = domain.log_n;
        let w = coeffs.width;
        let ghost m0: nat = choose|lh: nat|
            lh <= domain.log_n && #[trigger] pow2(lh) == coeffs.spec_height();
        let h = coeffs.height();
        // Recover the log of the coefficient height.
        let mut lh: usize = 0;
        let mut hh: usize = h;
        proof {
            vstd::arithmetic::power2::lemma2_to64();
        }
        while hh >= 2
            invariant
                0 <= lh <= m0,
                hh == pow2((m0 - lh) as nat),
                h == pow2(m0),
                m0 <= domain.log_n <= 30,
            decreases hh,
        {
            proof {
                assert(pow2(0) == 1) by {
                    vstd::arithmetic::power2::lemma2_to64();
                };
                if m0 == lh {
                    assert(false);
                }
                vstd::arithmetic::power2::lemma_pow2_unfold((m0 - lh) as nat);
                vstd::arithmetic::power2::lemma_pow2_pos((m0 - lh - 1) as nat);
            }
            hh = hh / 2;
            lh = lh + 1;
        }
        proof {
            assert(pow2((m0 - lh) as nat) == 1);
            if m0 != lh {
                vstd::arithmetic::power2::lemma_pow2_strictly_increases(0, (m0 - lh) as nat);
                assert(pow2(0) == 1);
            }
            assert(lh == m0);
        }
        // Duplicate the coefficient rows up to the domain height.
        let added = log_n - lh;
        let mut vals = coeffs.values;
        let ghost c0 = seq_vals(vals@);
        proof {
            assert(coeffs.spec_height() * (w as nat) == c0.len()) by {
                vstd::arithmetic::div_mod::lemma_fundamental_div_mod(
                    coeffs.values@.len() as int,
                    w as int,
                );
            };
            assert(c0.len() == pow2(lh as nat) * (w as nat));
            vstd::arithmetic::power2::lemma_pow2_pos(lh as nat);
            assert(c0.len() >= 1) by (nonlinear_arith)
                requires
                    c0.len() == pow2(lh as nat) * (w as nat),
                    pow2(lh as nat) >= 1,
                    w >= 1,
            ;
            assert(all_canon(c0));
            assert(vals@ =~= vals@);
            assert(rep_pad(c0, 1, c0.len()) =~= c0) by {
                assert forall|i: int| 0 <= i < c0.len() implies rep_pad(c0, 1, c0.len())[i]
                    == c0[i] by {
                    vstd::arithmetic::div_mod::lemma_small_mod(i as nat, c0.len());
                }
            };
        }
        let mut a: usize = 0;
        while a < added
            invariant
                0 <= a <= added,
                added == log_n - lh,
                lh + added == log_n,
                log_n <= 30,
                w >= 1,
                c0.len() == pow2(lh as nat) * (w as nat),
                c0.len() >= 1,
                all_canon(c0),
                seq_vals(vals@) == rep_pad(c0, pow2(a as nat), c0.len()),
                vals@.len() == pow2(a as nat) * c0.len(),
            decreases added - a,
        {
            let cur = vals.len();
            let ghost snap = vals@;
            let mut t: usize = 0;
            while t < cur
                invariant
                    0 <= t <= cur,
                    cur == snap.len(),
                    vals@.len() == cur + t,
                    forall|q: int| 0 <= q < cur ==> vals@[q] == snap[q],
                    forall|q: int| 0 <= q < t ==> vals@[cur + q] == snap[q],
                decreases cur - t,
            {
                let x = vals[t];
                vals.push(x);
                t = t + 1;
            }
            proof {
                // doubling the vector doubles the copies
                let m = pow2(a as nat);
                let seg = c0.len();
                assert(seq_vals(vals@) =~= rep_pad(c0, 2 * m, seg)) by {
                    assert(vals@.len() == 2 * (m * seg));
                    assert(2 * (m * seg) == (2 * m) * seg) by (nonlinear_arith);
                    assert forall|i: int| 0 <= i < vals@.len() implies seq_vals(vals@)[i]
                        == rep_pad(c0, 2 * m, seg)[i] by {
                        if i < m * seg as int {
                            assert(vals@[i] == snap[i]);
                            assert(seq_vals(snap)[i] == rep_pad(c0, m, seg)[i]);
                        } else {
                            assert(vals@[i] == snap[i - m * seg]);
                            assert(seq_vals(snap)[i - m * seg] == rep_pad(c0, m, seg)[i - m
                                * seg]);
                            assert((i - m * seg) % seg as int == i % seg as int) by {
                                vstd::arithmetic::div_mod::lemma_mod_multiples_vanish(
                                    m as int,
                                    i - m * seg,
                                    seg as int,
                                );
                                assert((seg as int) * (m as int) + (i - m * seg) == i)
                                    by (nonlinear_arith)
                                    requires
                                        0 <= i,
                                        (m as int) * (seg as int) + (i - m * seg) == i,
                                ;
                            };
                        }
                    }
                };
                vstd::arithmetic::power2::lemma_pow2_unfold((a + 1) as nat);
                assert(2 * m == pow2((a + 1) as nat));
                assert((2 * m) * c0.len() == 2 * (m * c0.len())) by (nonlinear_arith);
            }
            a = a + 1;
        }
        proof {
            // the duplicated vector is the rep-padded form at full height
            vstd::arithmetic::power2::lemma_pow2_adds(added as nat, lh as nat);
            assert(pow2(added as nat) * c0.len() == pow2(log_n as nat) * (w as nat))
                by (nonlinear_arith)
                requires
                    c0.len() == pow2(lh as nat) * (w as nat),
                    pow2(added as nat) * pow2(lh as nat) == pow2(log_n as nat),
            ;
            assert(rep_pad(c0, pow2(added as nat), c0.len()) =~= rep_pad(
                c0,
                pow2(added as nat),
                pow2(lh as nat) * (w as nat),
            ));
        }
        // Apply the remaining layers, deepest blocks first.
        let twiddles = compute_twiddles(&domain);
        let _vlen = vals.len();
        let ghost tss = spec_twiddles(domain);
        let ghost rep0 = rep_pad(c0, pow2(added as nat), pow2(lh as nat) * (w as nat));
        proof {
            assert(tss.subrange(0, lh as int).len() == lh);
        }
        let mut k: usize = lh;
        while k > 0
            invariant
                0 <= k <= lh,
                lh <= log_n,
                log_n == domain.log_n,
                domain.wf(),
                log_n >= 2,
                w >= 1,
                twiddles@.len() == log_n,
                forall|m: int|
                    0 <= m < log_n ==> seq_vals(#[trigger] twiddles@[m]@) == spec_twiddle_layer(
                        domain,
                        m as nat,
                    ),
                tss == spec_twiddles(domain),
                vals@.len() == pow2(log_n as nat) * (w as nat),
                vals@.len() <= usize::MAX,
                apply_dit_layers_rev(seq_vals(vals@), tss.subrange(0, k as int))
                    == apply_dit_layers_rev(rep0, tss.subrange(0, lh as int)),
            decreases k,
        {
            let kk = k - 1;
            proof {
                lemma_twiddle_layer_len(domain, kk as nat);
                vstd::arithmetic::power2::lemma_pow2_adds(
                    (log_n - 1 - kk) as nat,
                    (kk + 1) as nat,
                );
                vstd::arithmetic::power2::lemma_pow2_pos((log_n - 1 - kk) as nat);
            }
            let layer_len = twiddles[kk].len();
            let blk = vals.len() / layer_len;
            proof {
                let ghost ll2 = pow2((log_n - 1 - kk) as nat) as int;
                let ghost bb = pow2((kk + 1) as nat) as int * (w as int);
                assert(vals@.len() as int == ll2 * bb) by (nonlinear_arith)
                    requires
                        vals@.len() == pow2(log_n as nat) * (w as nat),
                        pow2(log_n as nat) == pow2((log_n - 1 - kk) as nat) * pow2(
                            (kk + 1) as nat,
                        ),
                        ll2 == pow2((log_n - 1 - kk) as nat) as int,
                        bb == pow2((kk + 1) as nat) as int * (w as int),
                ;
                vstd::arithmetic::div_mod::lemma_fundamental_div_mod_converse(
                    vals@.len() as int,
                    ll2,
                    bb,
                    0,
                );
                assert(blk == bb);
                vstd::arithmetic::power2::lemma_pow2_unfold((kk + 1) as nat);
                assert(bb == 2 * (pow2(kk as nat) as int * w as int)) by (nonlinear_arith)
                    requires
                        bb == pow2((kk + 1) as nat) as int * (w as int),
                        pow2((kk + 1) as nat) == 2 * pow2(kk as nat),
                ;
                vstd::arithmetic::power2::lemma_pow2_pos(kk as nat);
                assert(bb >= 2) by (nonlinear_arith)
                    requires
                        bb == 2 * (pow2(kk as nat) as int * w as int),
                        pow2(kk as nat) >= 1,
                        w >= 1,
                ;
                assert(vals@.len() == twiddles@[kk as int]@.len() * blk) by (nonlinear_arith)
                    requires
                        vals@.len() as int == ll2 * bb,
                        twiddles@[kk as int]@.len() == ll2,
                        blk == bb,
                ;
            }
            let layer = &twiddles[kk];
            dit_layer_exec(&mut vals, layer, blk);
            proof {
                assert(tss.subrange(0, k as int).last() == tss[kk as int]);
                assert(tss.subrange(0, k as int).drop_last() =~= tss.subrange(0, kk as int));
                assert(seq_vals(twiddles@[kk as int]@) == tss[kk as int]);
            }
            k = kk;
        }
        proof {
            assert(tss.subrange(0, 0) =~= Seq::<Seq<int>>::empty());
            assert(apply_dit_layers_rev(seq_vals(vals@), Seq::<Seq<int>>::empty()) == seq_vals(
                vals@,
            ));
            lemma_rep_fold(domain, c0, w as nat, lh as nat, added as nat);
            // the matrix is well-formed at the full height
            vstd::arithmetic::div_mod::lemma_mod_multiples_vanish(
                pow2(log_n as nat) as int,
                0,
                w as int,
            );
            assert((pow2(log_n as nat) * (w as nat)) as int % (w as int) == 0)
                by (nonlinear_arith)
                requires
                    w >= 1,
                    ((w as int) * (pow2(log_n as nat) as int)) % (w as int) == 0,
            ;
        }
        let out = RowMajorMat::new(vals, w);
        proof {
            vstd::arithmetic::div_mod::lemma_fundamental_div_mod_converse(
                out.values@.len() as int,
                w as int,
                pow2(log_n as nat) as int,
                0,
            );
        }
        CircleEvaluations { domain, values: out }
    }

    /// Low-degree extension: interpolate, then evaluate on a larger domain.
    pub fn extrapolate(self, target_domain: CircleDomain) -> (r: CircleEvaluations)
        requires
            self.wf(),
            self.domain.log_n >= 2,
            twiddles_invertible(self.domain),
            target_domain.wf(),
            target_domain.log_n >= self.domain.log_n,
        ensures
            r.domain == target_domain,
            r.wf(),
            r.values.width == self.values.width,
            r.values.vals() == apply_dit_layers_rev(
                zero_pad(
                    scale_seq(
                        apply_dif_layers(
                            self.values.vals(),
                            inv_layers(spec_twiddles(self.domain)),
                        ),
                        finv(pow2(self.domain.log_n as nat) as int),
                    ),
                    pow2(target_domain.log_n as nat) * self.values.width as nat,
                ),
                spec_twiddles(target_domain),
            ),
    {
        let ghost ln = self.domain.log_n as nat;
        let w = self.values.width;
        proof {
            crate::matrix::lemma_mat_dims(self.values);
        }
        let coeffs = self.interpolate();
        proof {
            lemma_apply_dif_len(self.values.vals(), inv_layers(spec_twiddles(self.domain)));
            assert(coeffs.vals().len() == self.values.vals().len());
            assert(self.values.vals().len() == pow2(ln) * (w as nat));
            assert(coeffs.values@.len() == coeffs.vals().len());
            assert(coeffs.values@.len() == pow2(ln) * (w as nat));
            vstd::arithmetic::div_mod::lemma_fundamental_div_mod_converse(
                coeffs.values@.len() as int,
                w as int,
                pow2(ln) as int,
                0,
            );
            assert(coeffs.spec_height() == pow2(ln));
            assert(ln <= target_domain.log_n && pow2(ln) == coeffs.spec_height());
        }
        Self::evaluate(target_domain, coeffs)
    }
}


// ---------------------------------------------------------------------------
// The circle basis and barycentric evaluation.
// ---------------------------------------------------------------------------

/// Repeatedly duplicate a basis, multiplying the second copy by `x`, and
/// advance `x` by the doubling map.
pub open spec fn basis_expand(b: Seq<int>, x: int, k: nat) -> Seq<int>
    decreases k,
{
    if k == 0 {
        b
    } else {
        basis_expand(b + Seq::new(b.len(), |i: int| fmul(b[i], x)), pi_x(x), (k - 1) as nat)
    }
}

/// The circle basis at a point: start from `[1, y]` and expand with the
/// x-coordinate `log_n - 1` times.
pub open spec fn circle_basis_spec(p: (int, int), log_n: nat) -> Seq<int> {
    basis_expand(seq![1int, p.1], p.0, (log_n - 1) as nat)
}

/// The monomial circle basis evaluated at a point.
pub fn circle_basis(p: Point, log_n: usize) -> (r: Vec<Mersenne31>)
    requires
        1 <= log_n <= 30,
    ensures
        r@.len() == pow2(log_n as nat),
        seq_vals(r@) == circle_basis_spec(p.pt(), log_n as nat),
{
    let mut b: Vec<Mersenne31> = Vec::new();
    b.push(Mersenne31::one());
    b.push(p.y);
    let mut x = p.x;
    let mut k: usize = 0;
    let steps: usize = log_n - 1;
    proof {
        vstd::arithmetic::power2::lemma2_to64();
        assert(seq_vals(b@) =~= seq![1int, p.pt().1]);
    }
    while k < steps
        invariant
            0 <= k <= steps,
            steps == log_n - 1,
            log_n <= 30,
            b@.len() == pow2((k + 1) as nat),
            basis_expand(seq_vals(b@), x.val(), (steps - k) as nat) == circle_basis_spec(
                p.pt(),
                log_n as nat,
            ),
        decreases steps - k,
    {
        let cur = b.len();
        let ghost snap = b@;
        let mut i: usize = 0;
        while i < cur
            invariant
                0 <= i <= cur,
                cur == snap.len(),
                b@.len() == cur + i,
                forall|q: int| 0 <= q < cur ==> b@[q] == snap[q],
                forall|q: int|
                    0 <= q < i ==> #[trigger] b@[cur + q].val() == fmul(
                        seq_vals(snap)[q],
                        x.val(),
                    ),
            decreases cur - i,
        {
            let v = b[i].mul(x);
            b.push(v);
            i = i + 1;
        }
        proof {
            let ghost target = seq_vals(snap) + Seq::new(
                seq_vals(snap).len(),
                |q: int| fmul(seq_vals(snap)[q], x.val()),
            );
            assert forall|q: int| 0 <= q < b@.len() implies seq_vals(b@)[q] == target[q] by {
                if q < cur {
                    assert(b@[q] == snap[q]);
                } else {
                    assert(b@[cur + (q - cur)].val() == fmul(seq_vals(snap)[q - cur], x.val()));
                    assert(cur + (q - cur) == q);
                }
            }
            assert(seq_vals(b@) =~= target);
            vstd::arithmetic::power2::lemma_pow2_unfold((k + 2) as nat);
        }
        x = x.square().double().sub(Mersenne31::one());
        k = k + 1;
    }
    b
}

// ---------------------------------------------------------------------------
// Barycentric evaluation at an arbitrary (extension-field) point.
// ---------------------------------------------------------------------------

/// A base circle point seen in the extension.
pub open spec fn ept_from_base(p: (int, int)) -> ((int, int), (int, int)) {
    ((p.0, 0int), (p.1, 0int))
}

/// The group difference `pt - p_j` between the evaluation point and the
/// `j`-th domain point.
pub open spec fn bary_diff(d: CircleDomain, pt: ((int, int), (int, int)), j: nat) -> (
    (int, int),
    (int, int),
) {
    crate::ext::ept_add(
        pt,
        (
            ept_from_base(d.spec_point(j)).0,
            crate::ext::csub((0int, 0int), ept_from_base(d.spec_point(j)).1),
        ),
    )
}

/// The denominator `1 - x(pt - p_j)` of the half-angle cotangent; it
/// vanishes exactly when the evaluation point is the domain point.
pub open spec fn bary_denom(d: CircleDomain, pt: ((int, int), (int, int)), j: nat) -> (int, int) {
    crate::ext::csub((1int, 0int), bary_diff(d, pt, j).0)
}

/// The normalization constant of node `j`: `(-1)^j / 2^log_n`, derived
/// from the standard-position coset.
pub open spec fn bary_norm(d: CircleDomain, j: nat) -> (int, int) {
    if j % 2 == 0 {
        (finv(pow2(d.log_n as nat) as int), 0int)
    } else {
        (fsub(0, finv(pow2(d.log_n as nat) as int)), 0int)
    }
}

/// The Lagrange-basis factor of node `j`, before the vanishing factor:
/// `norm_j * y(pt - p_j) / (1 - x(pt - p_j))`.
pub open spec fn bary_term(d: CircleDomain, pt: ((int, int), (int, int)), j: nat) -> (int, int) {
    crate::ext::cmul(
        bary_norm(d, j),
        crate::ext::cmul(bary_diff(d, pt, j).1, crate::ext::cinv(bary_denom(d, pt, j))),
    )
}

/// The barycentric sum of column `c` over the first `rows` cfft-ordered
/// rows: each value is paired with the basis factor of its natural node.
pub open spec fn bary_sum(
    d: CircleDomain,
    v: Seq<int>,
    w: nat,
    c: nat,
    pt: ((int, int), (int, int)),
    rows: nat,
) -> (int, int)
    decreases rows,
{
    if rows == 0 {
        (0int, 0int)
    } else {
        crate::ext::cadd(
            bary_sum(d, v, w, c, pt, (rows - 1) as nat),
            crate::ext::cmul(
                (v[((rows - 1) * w + c) as int], 0int),
                bary_term(d, pt, cfft_perm(d.log_n as nat, (rows - 1) as nat)),
            ),
        )
    }
}

/// The vanishing factor `v_n(pt) - v_n(shift)`.
pub open spec fn bary_vanish(d: CircleDomain, pt: ((int, int), (int, int))) -> (int, int) {
    crate::ext::csub(
        crate::ext::evn_x(pt.0, d.log_n as nat),
        (crate::point::vn_x(d.shift.pt().0, d.log_n as nat), 0int),
    )
}

impl CircleEvaluations {
    /// Barycentric evaluation of every column at an arbitrary point of the
    /// extension, by the half-angle cotangent kernel of the standard
    /// domain.  The preconditions exclude evaluation points lying on the
    /// domain itself, where the kernel's denominators vanish.
    pub fn evaluate_at_point(&self, point: crate::ext::PointExt) -> (r: Vec<crate::ext::Cm31>)
        requires
            self.wf(),
            finv_exists(pow2(self.domain.log_n as nat) as int),
            forall|j: nat|
                j < pow2(self.domain.log_n as nat) ==> finv_exists(
                    crate::ext::cnorm(#[trigger] bary_denom(self.domain, point.ept(), j)),
                ),
        ensures
            r@.len() == self.values.width,
            forall|c: int|
                0 <= c < self.values.width ==> (#[trigger] r@[c]).cval() == crate::ext::cmul(
                    bary_vanish(self.domain, point.ept()),
                    bary_sum(
                        self.domain,
                        self.values.vals(),
                        self.values.width as nat,
                        c as nat,
                        point.ept(),
                        pow2(self.domain.log_n as nat),
                    ),
                ),
    {
        let d = self.domain;
        let log_n = d.log_n;
        let w = self.values.width;
        let n = d.size();
        proof {
            crate::matrix::lemma_mat_dims(self.values);
        }
        let _total = self.values.values.len();
        let vdiff = point.v_n(log_n).sub(crate::ext::Cm31::from_base(d.shift.v_n(log_n)));
        proof {
            vstd::arithmetic::power2::lemma2_to64();
            if log_n < 31 {
                vstd::arithmetic::power2::lemma_pow2_strictly_increases(log_n as nat, 31);
            }
            assert(pow2(31) == 0x8000_0000);
            vstd::arithmetic::div_mod::lemma_small_mod(n as nat, P as nat);
        }
        let invn = Mersenne31::new(n as u32).inverse();
        let pts = d.points();
        let mut basis: Vec<crate::ext::Cm31> = Vec::new();
        let mut j: usize = 0;
        while j < n
            invariant
                0 <= j <= n,
                d.wf(),
                log_n == d.log_n,
                n == pow2(log_n as nat),
                invn.val() == finv(pow2(log_n as nat) as int),
                pts@.len() == n,
                forall|q: int| 0 <= q < n ==> (#[trigger] pts@[q]).pt() == d.spec_point(q as nat),
                forall|q: nat|
                    q < pow2(log_n as nat) ==> finv_exists(
                        crate::ext::cnorm(#[trigger] bary_denom(d, point.ept(), q)),
                    ),
                basis@.len() == j,
                forall|q: int|
                    0 <= q < j ==> (#[trigger] basis@[q]).cval() == bary_term(
                        d,
                        point.ept(),
                        q as nat,
                    ),
            decreases n - j,
        {
            let diff = point.sub(crate::ext::PointExt::from_base(pts[j]));
            let denom = crate::ext::Cm31::one().sub(diff.x);
            proof {
                assert(diff.ept() == bary_diff(d, point.ept(), j as nat));
                assert(denom.cval() == bary_denom(d, point.ept(), j as nat));
            }
            let di = denom.inverse();
            let norm = if j % 2 == 0 {
                crate::ext::Cm31::from_base(invn)
            } else {
                crate::ext::Cm31::from_base(invn.neg())
            };
            basis.push(norm.mul(diff.y.mul(di)));
            j = j + 1;
        }
        let mut out: Vec<crate::ext::Cm31> = Vec::new();
        let mut c: usize = 0;
        while c < w
            invariant
                0 <= c <= w,
                d.wf(),
                log_n == d.log_n,
                w == self.values.width,
                n == pow2(log_n as nat),
                self.values.wf(),
                self.values.spec_height() == n,
                self.values.values@.len() == n * (w as nat),
                self.values.values@.len() <= usize::MAX,
                vdiff.cval() == bary_vanish(d, point.ept()),
                basis@.len() == n,
                forall|q: int|
                    0 <= q < n ==> (#[trigger] basis@[q]).cval() == bary_term(
                        d,
                        point.ept(),
                        q as nat,
                    ),
                out@.len() == c,
                forall|q: int|
                    0 <= q < c ==> (#[trigger] out@[q]).cval() == crate::ext::cmul(
                        bary_vanish(d, point.ept()),
                        bary_sum(d, self.values.vals(), w as nat, q as nat, point.ept(), n as nat),
                    ),
            decreases w - c,
        {
            let mut acc = crate::ext::Cm31::zero();
            let mut i: usize = 0;
            while i < n
                invariant
                    0 <= i <= n,
                    0 <= c < w,
                    d.wf(),
                    log_n == d.log_n,
                    w == self.values.width,
                    n == pow2(log_n as nat),
                    self.values.wf(),
                    self.values.spec_height() == n,
                    self.values.values@.len() == n * (w as nat),
                    self.values.values@.len() <= usize::MAX,
                    basis@.len() == n,
                    forall|q: int|
                        0 <= q < n ==> (#[trigger] basis@[q]).cval() == bary_term(
                            d,
                            point.ept(),
                            q as nat,
                        ),
                    acc.cval() == bary_sum(
                        d,
                        self.values.vals(),
                        w as nat,
                        c as nat,
                        point.ept(),
                        i as nat,
                    ),
                decreases n - i,
            {
                proof {
                    crate::matrix::lemma_row_index(
                        i as int,
                        c as int,
                        w as int,
                        n as int,
                        self.values.values@.len() as int,
                    );
                    vstd::arithmetic::power2::lemma_pow2_unfold((log_n + 1) as nat);
                    crate::ordering::lemma_cfft_perm_bound(log_n as nat, i as nat);
                }
                let pi = cfft_permute_index(i, log_n);
                let term = crate::ext::Cm31::from_base(self.values.values[i * w + c]).mul(
                    basis[pi],
                );
                acc = acc.add(term);
                i = i + 1;
            }
            out.push(vdiff.mul(acc));
            c = c + 1;
        }
        out
    }
}

} // verus!
