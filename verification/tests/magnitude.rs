//! Magnitudes.

use rs1090::magnitude::{
    alpha_max_beta_min, batch_amam, batch_lut, build_mag_lut, isqrt_floor, isqrt_round, lut,
};
use rs1090::Iq;

/// True magnitude rounded to nearest.
fn truth(s: Iq) -> u16 {
    let i = s.i as f64;
    let q = s.q as f64;
    (i.mul_add(i, q * q)).sqrt().round() as u16
}

#[test]
fn alpha_zero_is_zero() {
    assert_eq!(alpha_max_beta_min(Iq::new(0, 0)), 0);
    assert_eq!(lut(Iq::new(0, 0)), 0);
}

#[test]
fn alpha_handles_i8_min() {
    let m = alpha_max_beta_min(Iq::new(-128, 0));
    assert_eq!(m, 128);
    let m = alpha_max_beta_min(Iq::new(-128, -128));
    assert_eq!(m, 192);
}

#[test]
fn alpha_max_beta_min_continuous_bound_above_noise_floor() {
    let mut worst: f64 = 0.0;
    for i in i8::MIN..=i8::MAX {
        for q in i8::MIN..=i8::MAX {
            let mn = (i as i16).unsigned_abs().min((q as i16).unsigned_abs());
            if mn < 4 {
                continue;
            }
            let approx = alpha_max_beta_min(Iq::new(i, q)) as f64;
            let t = ((i as f64).powi(2) + (q as f64).powi(2)).sqrt();
            let err = (approx - t).abs() / t;
            if err > worst {
                worst = err;
            }
        }
    }
    assert!(worst <= 0.119, "above-noise peak error {worst:.5} exceeds 11.9%");
}

#[test]
fn alpha_max_beta_min_underestimates_only_within_one_lsb_when_min_is_odd() {
    for i in i8::MIN..=i8::MAX {
        for q in i8::MIN..=i8::MAX {
            let approx = alpha_max_beta_min(Iq::new(i, q)) as f64;
            let t = ((i as f64).powi(2) + (q as f64).powi(2)).sqrt();
            let ai = (i as i16).unsigned_abs() as f64;
            let aq = (q as i16).unsigned_abs() as f64;
            let cont = ai.max(aq) + ai.min(aq) * 0.5;
            assert!(
                approx + 0.5 + 1e-9 >= cont,
                "approx {approx} more than 0.5 below cont {cont} at ({i},{q})"
            );
            assert!(cont + 1e-9 >= t, "continuous form {cont} below truth {t:.3} at ({i},{q})");
        }
    }
}

#[test]
fn alpha_max_beta_min_reduces_to_max_when_minor_truncates() {
    for i in i8::MIN..=i8::MAX {
        for q in i8::MIN..=i8::MAX {
            let ai = (i as i16).unsigned_abs();
            let aq = (q as i16).unsigned_abs();
            if ai.min(aq) > 1 {
                continue;
            }
            let approx = alpha_max_beta_min(Iq::new(i, q));
            assert_eq!(approx, ai.max(aq));
        }
    }
}

#[test]
fn lut_matches_rounded_true_magnitude_exhaustively() {
    for i in i8::MIN..=i8::MAX {
        for q in i8::MIN..=i8::MAX {
            let s = Iq::new(i, q);
            assert_eq!(lut(s), truth(s), "lut({i},{q}) disagrees with the rounded root");
        }
    }
}

#[test]
fn table_holds_what_lut_computes() {
    let t = build_mag_lut();
    assert_eq!(t.len(), 65_536);
    for i in i8::MIN..=i8::MAX {
        for q in i8::MIN..=i8::MAX {
            let k = ((i as u8 as usize) << 8) | (q as u8 as usize);
            assert_eq!(t[k], lut(Iq::new(i, q)));
        }
    }
}

#[test]
fn batch_amam_matches_scalar() {
    let samples: Vec<Iq> = (0i32..1024).map(|n| Iq::new((n - 512) as i8, (n % 200 - 100) as i8)).collect();
    let mut out = vec![0u16; samples.len()];
    batch_amam(&samples, &mut out);
    for (s, m) in samples.iter().zip(out.iter()) {
        assert_eq!(*m, alpha_max_beta_min(*s));
    }
}

#[test]
fn batch_lut_matches_scalar() {
    let samples: Vec<Iq> = (0i32..1024).map(|n| Iq::new((n - 512) as i8, (n % 200 - 100) as i8)).collect();
    let mut out = vec![0u16; samples.len()];
    batch_lut(&samples, &mut out);
    for (s, m) in samples.iter().zip(out.iter()) {
        assert_eq!(*m, lut(*s));
    }
}

#[test]
fn isqrt_round_spot_checks() {
    assert_eq!(isqrt_round(0), 0);
    assert_eq!(isqrt_round(1), 1);
    assert_eq!(isqrt_round(2), 1);
    assert_eq!(isqrt_round(3), 2);
    assert_eq!(isqrt_round(4), 2);
    assert_eq!(isqrt_round(32768), 181);
    assert_eq!(isqrt_round(100), 10);
    assert_eq!(isqrt_round(110), 10);
    assert_eq!(isqrt_round(111), 11);
}

#[test]
fn isqrt_at_the_extremes() {
    assert_eq!(isqrt_floor(u32::MAX), 65_535);
    assert_eq!(isqrt_round(u32::MAX), 65_536);
    assert_eq!(isqrt_floor(65_535 * 65_535), 65_535);
    assert_eq!(isqrt_floor(65_535 * 65_535 - 1), 65_534);
}
