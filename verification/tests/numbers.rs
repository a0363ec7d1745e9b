use radar_bot::distance::{distance_score, format_distance, in_geocode_range, score_color};
use radar_bot::ieee::Real;
use radar_bot::num::{decimal_int_of, decimal_of, parse_unsigned_of};

fn float(x: f64) -> Real {
    Real { bits: x.to_bits() }
}

fn text(v: Vec<char>) -> String {
    v.into_iter().collect()
}

/// Numbers of all magnitudes, with both signs, and the ends of the range.
fn samples() -> Vec<f64> {
    let mut out = vec![
        0.0,
        -0.0,
        f64::MIN_POSITIVE,
        f64::EPSILON,
        f64::MAX,
        f64::MIN,
        f64::INFINITY,
        f64::NEG_INFINITY,
        f64::NAN,
        5e-324,
        0.5,
        1.5,
        2.5,
        0.25,
        0.05,
        0.15,
        0.45,
        0.125,
        0.375,
        0.005,
        0.015,
        999.5,
        999.4999999999999,
        999.95,
        1049.9999999999998,
        1050.0,
        1149.0,
        1150.0,
        1250.0,
        20000.0,
        19999.999999999996,
        4294967295.5,
        9.007199254740993e15,
        1e22,
        1e23,
        123456789.123456789,
    ];
    let mut state: u64 = 0x9e37_79b9_7f4a_7c15;
    for _ in 0..2000 {
        state = state
            .wrapping_mul(6364136223846793005)
            .wrapping_add(1442695040888963407);
        out.push(f64::from_bits(state));
        out.push((state >> 40) as f64 / 1000.0);
        out.push((state >> 44) as f64 / 20.0);
    }
    let negative: Vec<f64> = out.iter().map(|x| -x).collect();
    out.extend(negative);
    out
}

#[test]
fn reals_are_written_as_the_formatter_writes_them() {
    for x in samples() {
        assert_eq!(text(float(x).to_text(0)), format!("{:.0}", x), "{:?}", x);
        assert_eq!(text(float(x).to_text(1)), format!("{:.1}", x), "{:?}", x);
        assert_eq!(text(float(x).to_text(2)), format!("{:.2}", x), "{:?}", x);
    }
}

#[test]
fn reals_are_compared_as_floats_are() {
    let all = samples();
    for pair in all.windows(2) {
        let (a, b) = (pair[0], pair[1]);
        assert_eq!(float(a).lt(float(b)), a < b, "{:?} {:?}", a, b);
        assert_eq!(
            float(a).near_300(float(b)),
            (a - b).abs() <= 300.0,
            "{:?} {:?}",
            a,
            b
        );
        let c = a + 300.0;
        assert_eq!(
            float(a).near_300(float(c)),
            (a - c).abs() <= 300.0,
            "{:?} {:?}",
            a,
            c
        );
    }
    assert!(!float(f64::NAN).lt(float(1.0)));
    assert!(!float(0.0).lt(float(-0.0)));
    assert!(float(700.0).near_300(float(1000.0)));
    assert!(!float(700.0).near_300(float(1000.0000000000001)));
}

#[test]
fn reals_are_cut_and_rounded_as_casts_do() {
    for x in samples() {
        assert_eq!(float(x).truncate(), x as u32, "{:?}", x);
        if x < 9.0e18 {
            assert_eq!(float(x).round(), x.round() as u64, "{:?}", x);
        }
        assert_eq!(float(x).nan(), x.is_nan());
    }
    assert_eq!(float(2.5).round(), 3);
    assert_eq!(float(0.49999999999999994).round(), 0);
    assert_eq!(float(-7.9).truncate(), 0);
    assert_eq!(float(1e12).truncate(), u32::MAX);
}

#[test]
fn distances_read_well() {
    assert_eq!(format_distance(float(350.0)), "~350m");
    assert_eq!(format_distance(float(999.4)), "~999m");
    assert_eq!(format_distance(float(999.6)), "~1000m");
    assert_eq!(format_distance(float(1000.0)), "~1.0km");
    assert_eq!(format_distance(float(1250.0)), "~1.2km");
    assert_eq!(format_distance(float(-3.0)), "~0m");
    for x in samples() {
        let expected = if x < 1_000.0 {
            format!("~{}m", x.round() as u32)
        } else {
            format!("~{:.1}km", x / 1_000.0)
        };
        assert_eq!(format_distance(float(x)), expected, "{:?}", x);
    }
}

#[test]
fn nearer_places_score_higher() {
    for (meters, score) in [
        (0.0, 5),
        (199.9, 5),
        (200.0, 4),
        (499.9, 4),
        (500.0, 3),
        (999.9, 3),
        (1000.0, 2),
        (1999.9, 2),
        (2000.0, 1),
        (9999.9, 1),
        (10000.0, 0),
        (f64::NAN, 0),
    ] {
        assert_eq!(distance_score(float(meters)), score, "{}", meters);
    }
    assert!(in_geocode_range(float(19999.9)));
    assert!(!in_geocode_range(float(20000.0)));
}

#[test]
fn scores_have_colours() {
    let colours: Vec<&str> = (-1..7).map(score_color).collect();
    assert_eq!(
        colours,
        vec!["⚪", "⚪", "🔵", "🟢", "🟡", "🟠", "🔴", "🔴"]
    );
}

#[test]
fn integers_are_written_in_decimal() {
    for n in [0, 7, 10, 99, 100, u64::MAX] {
        assert_eq!(text(decimal_of(n)), n.to_string());
    }
    for n in [0, -1, 42, i64::MAX, i64::MIN] {
        assert_eq!(text(decimal_int_of(n)), n.to_string());
    }
}

#[test]
fn integers_are_read_as_std_reads_them() {
    for s in [
        "", "+", "-", "0", "+7", "-7", "007", "4294967295", "4294967296", "12a", " 1", "+0x1", "ff",
        "FF", "1F600", "++1", "99999999999999999999",
    ] {
        let chars: Vec<char> = s.chars().collect();
        assert_eq!(
            parse_unsigned_of(&chars, 10, u32::MAX),
            s.parse::<u32>().ok(),
            "{}",
            s
        );
        assert_eq!(
            parse_unsigned_of(&chars, 16, u32::MAX),
            u32::from_str_radix(s, 16).ok(),
            "{}",
            s
        );
    }
}
