//! Tests of the circle FFT: round trips, basis consistency, low-degree
//! extension, barycentric evaluation, and the twiddle recurrence.

use circle_stark::cfft::{check_twiddles_invertible, circle_basis, compute_twiddles, CircleEvaluations};
use circle_stark::domain::CircleDomain;
use circle_stark::ext::{Cm31, PointExt};
use circle_stark::matrix::RowMajorMat;
use circle_stark::point::Point;
use circle_stark::Mersenne31;
use rand::{Rng, SeedableRng};

fn rand_m31(rng: &mut rand::rngs::StdRng) -> Mersenne31 {
    Mersenne31::new(rng.gen::<u32>())
}

fn rand_mat(rng: &mut rand::rngs::StdRng, height: usize, width: usize) -> RowMajorMat {
    let mut v = Vec::new();
    for _ in 0..height * width {
        v.push(rand_m31(rng));
    }
    RowMajorMat::new(v, width)
}

fn mats_equal(a: &RowMajorMat, b: &RowMajorMat) -> bool {
    if a.width != b.width || a.values.len() != b.values.len() {
        return false;
    }
    for i in 0..a.values.len() {
        if a.values[i] != b.values[i] {
            return false;
        }
    }
    true
}

#[test]
fn test_cfft_icfft() {
    let mut rng = rand::rngs::StdRng::seed_from_u64(42);
    for log_n in 2..5usize {
        for width in [1usize, 2, 4] {
            let shift = Point::generator(31).mul_scalar((rng.gen::<u32>() % (1 << 20)) as usize);
            let domain = CircleDomain::new(log_n, shift);
            let n = 1usize << log_n;
            let trace = rand_mat(&mut rng, n, width);
            let trace_copy = RowMajorMat::new(trace.values.clone(), width);
            let coeffs = CircleEvaluations::from_natural_order(domain, trace).interpolate();
            let coeffs_mat = RowMajorMat::new(coeffs.values.clone(), coeffs.width);
            let back = CircleEvaluations::evaluate(domain, coeffs_mat).to_natural_order();
            assert!(mats_equal(&back, &trace_copy), "icfft(cfft(evals)) is identity");
            let points = domain.points();
            for (i, pt) in points.iter().enumerate() {
                let basis = circle_basis(*pt, log_n);
                let dot = coeffs.columnwise_dot_product(&basis);
                let row = trace_copy.row(i);
                assert_eq!(row, dot, "coeffs can be evaluated with circle_basis");
            }
        }
    }
}

#[test]
fn test_extrapolation() {
    let mut rng = rand::rngs::StdRng::seed_from_u64(7);
    for log_n in 2..5usize {
        for log_blowup in [1usize, 2, 3] {
            let n = 1usize << log_n;
            let evals = CircleEvaluations::from_natural_order(
                CircleDomain::standard(log_n),
                rand_mat(&mut rng, n, 4),
            );
            let evals_copy = CircleEvaluations::from_cfft_order(
                evals.domain,
                RowMajorMat::new(evals.values.values.clone(), evals.values.width),
            );
            let lde = evals_copy.extrapolate(CircleDomain::standard(log_n + log_blowup));
            assert_eq!(lde.values.height(), 1usize << (log_n + log_blowup));

            let coeffs = evals.interpolate();
            let lde_coeffs = CircleEvaluations::from_cfft_order(
                lde.domain,
                RowMajorMat::new(lde.values.values.clone(), lde.values.width),
            )
            .interpolate();

            for r in 0..coeffs.height() {
                assert_eq!(coeffs.row(r), lde_coeffs.row(r));
            }
            for r in coeffs.height()..lde_coeffs.height() {
                for x in lde_coeffs.row(r) {
                    assert!(x.is_zero());
                }
            }
        }
    }
}

#[test]
fn test_barycentric() {
    let mut rng = rand::rngs::StdRng::seed_from_u64(3);
    for log_n in 2..5usize {
        for width in [1usize, 2, 4] {
            let n = 1usize << log_n;
            let evals = CircleEvaluations::from_natural_order(
                CircleDomain::standard(log_n),
                rand_mat(&mut rng, n, width),
            );
            let pt = PointExt::from_projective_line(Cm31::new(
                rand_m31(&mut rng),
                rand_m31(&mut rng),
            ));

            let got = evals.evaluate_at_point(pt);

            // Expected: the columnwise dot of the coefficients with the
            // circle basis at the point, computed over the extension.
            let coeffs = evals.interpolate();
            let mut basis: Vec<Cm31> = vec![Cm31::one(), pt.y];
            let mut x = pt.x;
            for _ in 0..log_n - 1 {
                let cur = basis.len();
                for i in 0..cur {
                    let v = basis[i].mul(x);
                    basis.push(v);
                }
                x = x.square().double().sub(Cm31::one());
            }
            for c in 0..width {
                let mut acc = Cm31::zero();
                for j in 0..n {
                    acc = acc.add(Cm31::from_base(coeffs.values[j * width + c]).mul(basis[j]));
                }
                assert_eq!(got[c], acc);
            }
        }
    }
}

#[test]
fn print_twiddles() {
    let domain = CircleDomain::standard(3);
    let tw = compute_twiddles(&domain);
    for layer in tw.iter() {
        let vals: Vec<u32> = layer.iter().map(|t| t.as_canonical_u32()).collect();
        println!("{:?}", vals);
    }
}

#[test]
fn twiddle_recurrence() {
    let domain = CircleDomain::standard(3);
    let tw = compute_twiddles(&domain);
    assert_eq!(tw.len(), 3);
    assert_eq!(tw[0].len(), 4);
    assert_eq!(tw[1].len(), 2);
    assert_eq!(tw[2].len(), 1);
    let expected = tw[1][0].square().double().sub(Mersenne31::one());
    assert_eq!(tw[2][0], expected);
    assert_eq!(tw[2][0].as_canonical_u32(), 32768);
}

#[test]
fn low_degree_rows_vanish() {
    // A low-degree input by construction: extend a height-8 evaluation to a
    // larger standard domain, and interpolate the blowup.
    let vals: Vec<Mersenne31> = (1u32..=8).map(Mersenne31::new).collect();
    let evals = CircleEvaluations::from_natural_order(
        CircleDomain::standard(3),
        RowMajorMat::new(vals, 1),
    );
    let lde = evals.extrapolate(CircleDomain::standard(4));
    let lde_coeffs = CircleEvaluations::from_cfft_order(
        lde.domain,
        RowMajorMat::new(lde.values.values.clone(), 1),
    )
    .interpolate();
    assert_eq!(lde_coeffs.height(), 16);
    for r in 8..16 {
        for x in lde_coeffs.row(r) {
            assert!(x.is_zero());
        }
    }
    // And the low rows match the original coefficients.
    let orig_vals: Vec<Mersenne31> = (1u32..=8).map(Mersenne31::new).collect();
    let orig_coeffs = CircleEvaluations::from_natural_order(
        CircleDomain::standard(3),
        RowMajorMat::new(orig_vals, 1),
    )
    .interpolate();
    for r in 0..8 {
        assert_eq!(orig_coeffs.row(r), lde_coeffs.row(r));
    }
}

#[test]
fn twiddle_helpers_agree() {
    for log_n in 2..6usize {
        let domain = CircleDomain::standard(log_n);
        let tw = compute_twiddles(&domain);
        let ys = domain.y_twiddles();
        assert_eq!(ys, tw[0]);
        for i in 0..ys.len() {
            assert_eq!(domain.nth_y_twiddle(i), ys[i]);
        }
        for layer in 0..log_n - 1 {
            let xs = domain.x_twiddles(layer);
            assert_eq!(xs, tw[layer + 1]);
        }
    }
}

#[test]
fn barycentric_at_base_point() {
    let mut rng = rand::rngs::StdRng::seed_from_u64(21);
    let log_n = 3usize;
    let n = 1usize << log_n;
    let evals = CircleEvaluations::from_natural_order(
        CircleDomain::standard(log_n),
        rand_mat(&mut rng, n, 2),
    );
    // A base-field point off the domain, embedded into the extension.
    let p = Point::from_projective_line(rand_m31(&mut rng));
    let got = evals.evaluate_at_point(PointExt::from_base(p));
    let coeffs = evals.interpolate();
    let basis = circle_basis(p, log_n);
    let expected = coeffs.columnwise_dot_product(&basis);
    for c in 0..2 {
        assert_eq!(got[c], Cm31::from_base(expected[c]));
    }
}

#[test]
fn twiddles_are_invertible() {
    // The run-time discharge of the interpolation precondition succeeds on
    // real domains, standard or shifted.
    let mut rng = rand::rngs::StdRng::seed_from_u64(33);
    for log_n in 2..7usize {
        assert!(check_twiddles_invertible(&CircleDomain::standard(log_n)));
        let shift = Point::generator(31).mul_scalar((rng.gen::<u32>() % (1 << 20)) as usize);
        assert!(check_twiddles_invertible(&CircleDomain::new(log_n, shift)));
    }
}
