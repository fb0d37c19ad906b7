use rbench::duration::fmt_dur;
use rbench::progress_label;
use rbench::text::{join_with_spaces, trimmed_bounds, trimmed_equals};

#[test]
fn fmt_dur_below_a_millisecond_shows_whole_microseconds() {
    assert_eq!(fmt_dur(0), "0µs");
    assert_eq!(fmt_dur(999), "0µs");
    assert_eq!(fmt_dur(1_000), "1µs");
    assert_eq!(fmt_dur(850_400), "850µs");
    assert_eq!(fmt_dur(999_999), "999µs");
}

#[test]
fn fmt_dur_below_a_second_shows_milliseconds() {
    assert_eq!(fmt_dur(1_000_000), "1.00ms");
    assert_eq!(fmt_dur(12_346_000), "12.35ms");
    assert_eq!(fmt_dur(12_344_999), "12.34ms");
    assert_eq!(fmt_dur(100_000_000), "100.00ms");
    assert_eq!(fmt_dur(999_994_000), "999.99ms");
    assert_eq!(fmt_dur(999_999_999), "1000.00ms");
}

#[test]
fn fmt_dur_rounds_like_the_f64_it_prints() {
    // 1.125 and 1.375 are exact f64 values: ties go to the even digit.
    assert_eq!(fmt_dur(1_125_000), "1.12ms");
    assert_eq!(fmt_dur(1_375_000), "1.38ms");
    // 2.675 and 1.005 are stored slightly below their decimal value.
    assert_eq!(fmt_dur(2_675_000), "2.67ms");
    assert_eq!(fmt_dur(1_005_000), "1.00ms");
    // 2 + 0.0005 is stored slightly above 2.0005.
    assert_eq!(fmt_dur(2_000_500_000), "2.001s");
    assert_eq!(fmt_dur(2_001_500_000), "2.002s");
}

/// The rendering computed with floating point, as the dashboard shows it.
fn rendered_with_floats(ns: u128) -> String {
    let d = std::time::Duration::new((ns / 1_000_000_000) as u64, (ns % 1_000_000_000) as u32);
    let micros = d.as_micros();
    if micros < 1_000 {
        format!("{}µs", micros)
    } else if micros < 1_000_000 {
        format!("{:.2}ms", micros as f64 / 1000.0)
    } else {
        format!("{:.3}s", d.as_secs_f64())
    }
}

#[test]
fn fmt_dur_agrees_with_floating_point_rendering() {
    let mut x: u64 = 0x2545_f491_4f6c_dd1d;
    let mut next = move || {
        x ^= x << 13;
        x ^= x >> 7;
        x ^= x << 17;
        x
    };
    for us in 1_000u128..1_000_000 {
        assert_eq!(fmt_dur(us * 1000), rendered_with_floats(us * 1000));
    }
    for s in 1u128..2_000 {
        for sub in [0u128, 1, 499_999, 500_000, 500_001, 1_500_000, 999_999_999] {
            let ns = s * 1_000_000_000 + sub;
            assert_eq!(fmt_dur(ns), rendered_with_floats(ns));
        }
    }
    for bits in 20..94u32 {
        for _ in 0..500 {
            let ns = ((next() as u128) << 64 | next() as u128) >> (128 - bits);
            assert_eq!(fmt_dur(ns), rendered_with_floats(ns), "{} ns", ns);
        }
    }
    assert_eq!(fmt_dur(rbench::DURATION_MAX_NS), rendered_with_floats(rbench::DURATION_MAX_NS));
}

#[test]
fn fmt_dur_from_a_second_shows_seconds() {
    assert_eq!(fmt_dur(1_000_000_000), "1.000s");
    assert_eq!(fmt_dur(1_500_000_000), "1.500s");
    assert_eq!(fmt_dur(1_234_567_890), "1.235s");
    assert_eq!(fmt_dur(61_000_400_000), "61.000s");
    assert_eq!(fmt_dur(2_000_000_000_000), "2000.000s");
}

#[test]
fn fmt_dur_of_the_largest_duration() {
    assert_eq!(
        fmt_dur(rbench::DURATION_MAX_NS),
        "18446744073709551616.000s"
    );
}

#[test]
fn decimal_rendering() {
    assert_eq!(progress_label(0, 7), "0/7");
    assert_eq!(progress_label(1_000_000, 10), "1000000/10");
    assert_eq!(progress_label(usize::MAX, 0), format!("{}/0", usize::MAX));
}

#[test]
fn join_command_words() {
    let words: Vec<String> = vec!["ls".to_string(), "-la".to_string(), "/tmp".to_string()];
    assert_eq!(join_with_spaces(&words), "ls -la /tmp");
    let one: Vec<String> = vec!["sleep 0.1".to_string()];
    assert_eq!(join_with_spaces(&one), "sleep 0.1");
    let none: Vec<String> = Vec::new();
    assert_eq!(join_with_spaces(&none), "");
}

#[test]
fn trimming_matches_str_trim() {
    for s in ["  power-saver\n", "\t\u{3000}x y\u{2029}", "", "   ", "abc", "\u{a0}a\u{85}"] {
        let (a, e) = trimmed_bounds(s);
        let chars: Vec<char> = s.chars().collect();
        let got: String = chars[a..e].iter().collect();
        assert_eq!(got, s.trim());
        assert!(trimmed_equals(s, s.trim()));
    }
    assert!(!trimmed_equals("power-saver", "power"));
}
