use ofgpu::digits::{format_general, show, show_pointed};
use ofgpu::narrow::{f32_to_f16_bits, to_single};
use ofgpu::numeral::parse_number;
use ofgpu::scalar::{whole_number, Scalar};

fn sc(v: f64) -> Scalar {
    Scalar { bits: v.to_bits() }
}

fn drawn(n: usize) -> Vec<f64> {
    let mut s: u64 = 0x9e37_79b9_7f4a_7c15;
    let mut out = Vec::new();
    while out.len() < n {
        s = s.wrapping_mul(6364136223846793005).wrapping_add(1442695040888963407);
        let v = f64::from_bits(s ^ (s >> 29));
        if !v.is_nan() {
            out.push(v);
        }
    }
    out
}

fn samples() -> Vec<f64> {
    let mut v = vec![
        0.0,
        -0.0,
        1.0,
        -1.0,
        0.1,
        0.3,
        1.0 / 3.0,
        1e-5,
        1e16,
        1e21,
        1e22,
        123456789.125,
        5e-324,
        2.2250738585072014e-308,
        1.7976931348623157e308,
        9007199254740993.0,
        1125899906842624.25,
        1125899906842624.5,
        0.000244140625,
        4503599627370496.5,
        f64::INFINITY,
        f64::NEG_INFINITY,
        f64::NAN,
    ];
    for i in 0..40 {
        v.push(i as f64 * 0.37 - 5.0);
    }
    v.extend(drawn(60));
    v
}

#[test]
fn a_number_is_shown_with_the_fewest_digits_that_read_back() {
    for v in samples() {
        assert_eq!(show(sc(v)), format!("{v}"), "{:#x}", v.to_bits());
    }
}

#[test]
fn a_number_with_a_point_is_shown_as_debug_shows_it() {
    for v in samples() {
        assert_eq!(show_pointed(sc(v)), format!("{v:?}"), "{:#x}", v.to_bits());
    }
}

#[test]
fn what_is_shown_reads_back() {
    for v in samples() {
        if v.is_nan() {
            continue;
        }
        let text = show(sc(v));
        assert_eq!(parse_number(&text).unwrap(), sc(v), "{text}");
        let general = format_general(sc(v), 17);
        assert_eq!(general.parse::<f64>().unwrap().to_bits(), v.to_bits(), "{general}");
    }
}

#[test]
fn general_digits_round_half_to_even() {
    assert_eq!(format_general(sc(0.5), 1), "0.5");
    assert_eq!(format_general(sc(2.5), 1), "2");
    assert_eq!(format_general(sc(3.5), 1), "4");
    assert_eq!(format_general(sc(1.25), 2), "1.2");
    assert_eq!(format_general(sc(1.75), 2), "1.8");
    assert_eq!(format_general(sc(999999.5), 6), "1e+06");
    assert_eq!(format_general(sc(-1e-5), 6), "-1e-05");
    assert_eq!(format_general(sc(1e100), 6), "1e+100");
}

#[test]
fn numbers_read_as_the_language_reads_them() {
    for t in [
        "0", "-0", "1", "+1", "1.", ".5", "1e5", "1E-5", "1e+05", "-2.5e-3", "inf", "-inf", "nan",
        "1e400", "-1e400", "1e-400", "4.9e-324", "2.47e-324", "2.4703282292062327e-324",
        "0.1000000000000000055511151231257827", "9007199254740992.9999",
        "17976931348623157e292", "179769313486231580793e289", "Infinity",
    ] {
        let want: f64 = t.parse().unwrap();
        let got = parse_number(t).unwrap();
        if want.is_nan() {
            assert!(f64::from_bits(got.bits).is_nan());
        } else {
            assert_eq!(got, sc(want), "{t}");
        }
    }
    for t in ["", "-", ".", "e5", "1e", "1e+", "0x10", "1 ", " 1", "1_0", "--1", "1.2.3"] {
        assert!(t.parse::<f64>().is_err());
        assert!(parse_number(t).is_none(), "{t}");
    }
}

#[test]
fn whole_numbers_are_whole() {
    for n in [0u64, 1, 7, 1 << 53, (1 << 53) + 1, u64::MAX] {
        assert_eq!(whole_number(n), sc(n as f64));
    }
    assert_eq!(sc(-3.0).as_label(), Some(-3));
    assert_eq!(sc(3.5).as_label(), None);
    assert_eq!(sc(3e9).as_label(), None);
    assert_eq!(sc(3e9).as_wide_label(), Some(3_000_000_000));
    assert_eq!(sc(2.5).rounded_half_up(), 3);
    assert_eq!(sc(-2.5).rounded_half_up(), (-2.5f64 + 0.5) as i32);
}

#[test]
fn numbers_compare_as_numbers() {
    let v = samples();
    for a in &v {
        for b in &v {
            assert_eq!(sc(*a).below(sc(*b)), a < b);
            assert_eq!(sc(*a).equals(sc(*b)), a == b);
        }
    }
}

#[test]
fn narrowing_is_rounding() {
    for v in samples() {
        let want = v as f32;
        let got = to_single(sc(v));
        if want.is_nan() {
            assert!(f32::from_bits(got).is_nan());
        } else {
            assert_eq!(got, want.to_bits(), "{v}");
        }
    }
    for bits in (0..=0x7bffu16).step_by(97) {
        let e = (bits >> 10) as i32;
        let m = (bits & 0x3ff) as f32;
        let v = if e == 0 { m * 2f32.powi(-24) } else { (1.0 + m / 1024.0) * 2f32.powi(e - 15) };
        assert_eq!(f32_to_f16_bits(v.to_bits()), bits);
    }
    assert_eq!(f32_to_f16_bits(1e-30f32.to_bits()), 0);
}

#[test]
fn general_digits_are_those_of_the_scientific_form() {
    let ties = [0.5, 2.5, 3.5, 1.25, 1.75, 0.125, 0.375, 4503599627370496.5, 1125899906842624.25];
    for v in samples().into_iter().chain(ties) {
        if !v.is_finite() || v == 0.0 {
            continue;
        }
        for p in [1usize, 2, 3, 6, 12, 16, 17] {
            let e = format!("{:.*e}", p - 1, v.abs());
            let want: String = e.split('e').next().unwrap().replace('.', "");
            let g = format_general(sc(v.abs()), p);
            let got: String = g.split('e').next().unwrap().replace('.', "");
            assert_eq!(
                got.trim_start_matches('0').trim_end_matches('0'),
                want.trim_end_matches('0'),
                "{v} with {p} digits: {g}"
            );
        }
    }
}
