use mnemonic_recovery::number::format_number;
use mnemonic_recovery::probe::{BatchProbe, BYTES_PER_CAND};
use mnemonic_recovery::progress::{
    bar_text, bar_width, fmt_duration, phrases_left, progress_line, report_due, usable_width,
};

fn with_floats(n: usize) -> String {
    if n >= 1_000_000_000 {
        format!("{:.1}G", n as f64 / 1e9)
    } else if n >= 1_000_000 {
        format!("{:.1}M", n as f64 / 1e6)
    } else if n >= 1_000 {
        format!("{:.1}K", n as f64 / 1e3)
    } else {
        n.to_string()
    }
}

#[test]
fn small_numbers_are_written_out() {
    assert_eq!(format_number(0), "0");
    assert_eq!(format_number(999), "999");
}

#[test]
fn large_numbers_get_a_letter() {
    assert_eq!(format_number(1_000), "1.0K");
    assert_eq!(format_number(65_536), "65.5K");
    assert_eq!(format_number(999_999), "1000.0K");
    assert_eq!(format_number(1_000_000), "1.0M");
    assert_eq!(format_number(479_001_600), "479.0M");
    assert_eq!(format_number(1_000_000_000), "1.0G");
    assert_eq!(format_number(usize::MAX), "18446744073.7G");
}

#[test]
fn ties_are_rounded_as_doubles_are() {
    assert_eq!(format_number(1_250), "1.2K");
    assert_eq!(format_number(1_150), "1.1K");
    assert_eq!(format_number(1_350), "1.4K");
    assert_eq!(format_number(1_750), "1.8K");
}

#[test]
fn numbers_are_written_as_doubles_are() {
    for n in 0..20_000usize {
        assert_eq!(format_number(n), with_floats(n));
    }
    for k in 0..10_000usize {
        let n = k * 50;
        assert_eq!(format_number(n * 1_000), with_floats(n * 1_000), "{n}");
        assert_eq!(format_number(n * 1_000_000), with_floats(n * 1_000_000), "{n}");
        assert_eq!(format_number(n * 1_000_000 + 1), with_floats(n * 1_000_000 + 1), "{n}");
    }
    let mut x: usize = 88172645463325252;
    for i in 0..50_000usize {
        x ^= x << 13;
        x ^= x >> 7;
        x ^= x << 17;
        let n = x >> (i % 60);
        assert_eq!(format_number(n), with_floats(n), "{n}");
    }
    for n in [
        (1usize << 53) - 1,
        1 << 53,
        (1 << 53) + 1,
        (1 << 54) + 2,
        (1 << 54) + 6,
        usize::MAX - 1,
        usize::MAX - 1024,
    ] {
        assert_eq!(format_number(n), with_floats(n), "{n}");
    }
}

#[test]
fn durations() {
    assert_eq!(fmt_duration(0), "0s");
    assert_eq!(fmt_duration(59), "59s");
    assert_eq!(fmt_duration(60), "1m00s");
    assert_eq!(fmt_duration(3_599), "59m59s");
    assert_eq!(fmt_duration(3_600), "1h00m00s");
    assert_eq!(fmt_duration(100 * 3_600 + 5 * 60 + 7), "100h05m07s");
}

#[test]
fn reports_come_at_each_interval() {
    assert!(!report_due(0, 100_000));
    assert!(!report_due(99_999, 100_000));
    assert!(report_due(100_000, 100_000));
    assert!(report_due(300_000, 100_000));
}

#[test]
fn width_of_the_terminal() {
    assert_eq!(usable_width(Some(80)), 80);
    assert_eq!(usable_width(Some(0)), 100);
    assert_eq!(usable_width(None), 100);
}

#[test]
fn bar_takes_what_is_left_of_the_line() {
    assert_eq!(bar_width(80, 60, 30), 16);
    assert_eq!(bar_width(120, 60, 30), 30);
    assert_eq!(bar_width(64, 60, 30), 0);
    assert_eq!(bar_width(10, 60, 30), 0);
    for text in 0..=80usize {
        let bar = bar_text(3, bar_width(80, text, 30));
        assert!(text + bar.chars().count() <= 80);
    }
}

#[test]
fn bar_shows_full_cells_first() {
    assert_eq!(bar_text(2, 5), " [██░░░]");
    assert_eq!(bar_text(9, 3), " [███]");
    assert_eq!(bar_text(0, 0), "");
}

#[test]
fn line_never_leaves_the_terminal() {
    assert_eq!(progress_line("abc", " 50%", " ETA", 3, 20, 30), "abc [███░░] 50% ETA");
    assert_eq!(progress_line("abc", " 50%", " ETA", 3, 20, 2), "abc [██] 50% ETA");
    assert_eq!(progress_line("abc", " 50%", " ETA", 3, 15, 30), "abc 50% ETA");
    assert_eq!(progress_line("abc", " 50%", " ETA", 3, 11, 30), "abc 50% ETA");
    assert_eq!(progress_line("abc", " 50%", " ETA", 3, 9, 30), "abc 50% E");
    assert_eq!(progress_line("abc", "", "", 0, 0, 0), "");
    for width in 0..120usize {
        let line = progress_line("  1.2M seeds", " 7.0%", " | ETA 1m", 5, width, 30);
        assert!(line.chars().count() <= width);
    }
}

#[test]
fn phrases_that_are_left() {
    assert_eq!(phrases_left(Some(10), 4), Some(6));
    assert_eq!(phrases_left(Some(4), 4), None);
    assert_eq!(phrases_left(None, 4), None);
}

#[test]
fn probe_doubles_up_to_the_cap() {
    let mut probe = BatchProbe::new(16, 18);
    assert_eq!(probe.batch, 65_536);
    assert!(probe.record(true));
    assert_eq!(probe.batch, 131_072);
    assert!(probe.record(true));
    assert_eq!(probe.batch, 262_144);
    assert!(!probe.record(true));
    assert_eq!(probe.last_ok, 262_144);
}

#[test]
fn probe_stops_at_the_first_failure() {
    let mut probe = BatchProbe::new(10, 20);
    assert!(probe.record(true));
    assert!(!probe.record(false));
    assert_eq!(probe.last_ok, 1_024);
    let mut first = BatchProbe::new(10, 20);
    assert!(!first.record(false));
    assert_eq!(first.last_ok, 1_024);
}

#[test]
fn probe_starts_at_the_cap_where_that_is_less() {
    let mut probe = BatchProbe::new(20, 10);
    assert_eq!(probe.batch, 1 << 10);
    assert!(!probe.record(true));
    assert_eq!(probe.last_ok, 1 << 10);
    let mut default_start = BatchProbe::new(16, 15);
    assert_eq!(default_start.batch, 1 << 15);
    assert!(!default_start.record(false));
    assert_eq!(default_start.last_ok, 1 << 15);
    assert_eq!(BatchProbe::new(64, 10).batch, 1 << 10);
    assert_eq!(BatchProbe::new(30, 64).batch, 1 << 28);
}

#[test]
fn probe_exponents_that_are_too_large() {
    let probe = BatchProbe::new(64, 64);
    assert_eq!(probe.batch, 1 << 16);
    assert_eq!(probe.cap, 1 << 28);
    let mut top = BatchProbe::new(63, 63);
    assert_eq!(top.batch, 1usize << 63);
    assert!(!top.record(true));
    assert_eq!(BYTES_PER_CAND, 28);
}
