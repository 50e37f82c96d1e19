use macroquad_toolkit::ui::{
    capitalize, display_name, format_clock, format_compact_money, format_hmmss, format_mmss, format_money,
};

#[test]
fn format_formats_money_with_commas() {
    assert_eq!(format_money(0), "$0");
    assert_eq!(format_money(1_234), "$1,234");
    assert_eq!(format_money(-1_234_567), "-$1,234,567");
}

#[test]
fn format_formats_compact_money() {
    assert_eq!(format_compact_money(999), "$999");
    assert_eq!(format_compact_money(12_000), "$12k");
    assert_eq!(format_compact_money(1_240_000), "$1.2m");
}

#[test]
fn format_formats_clock() {
    assert_eq!(format_clock(8, 30), "08:30");
    assert_eq!(format_clock(25, 61), "01:01");
}

#[test]
fn tests_formats_money_with_commas() {
    assert_eq!(format_money(0), "$0");
    assert_eq!(format_money(1_234), "$1,234");
    assert_eq!(format_money(-1_234_567), "-$1,234,567");
}

#[test]
fn tests_formats_compact_money() {
    assert_eq!(format_compact_money(999), "$999");
    assert_eq!(format_compact_money(12_000), "$12k");
    assert_eq!(format_compact_money(1_240_000), "$1.2m");
}

#[test]
fn tests_formats_clock() {
    assert_eq!(format_clock(8, 30), "08:30");
    assert_eq!(format_clock(25, 61), "01:01");
}

/// The figure as single-precision arithmetic writes it.
fn through_single_precision(value: i64) -> String {
    let sign = if value < 0 { "-" } else { "" };
    format!("{sign}${:.1}m", value.abs() as f32 / 1_000_000.0)
}

#[test]
fn compact_millions_match_single_precision_on_ties_and_edges() {
    let mut values = vec![
        1_000_000i64,
        1_049_999,
        1_050_000,
        1_150_000,
        1_250_000,
        1_350_000,
        1_450_000,
        1_550_000,
        2_500_000,
        9_950_000,
        9_999_999,
        16_777_215,
        16_777_216,
        16_777_217,
        16_777_219,
        33_554_435,
        999_999_999,
        1_000_000_000,
        123_456_789_012,
        i64::MAX,
        i64::MAX - 1,
        -1_250_000,
        -i64::MAX,
    ];
    for tenth in 0..400i64 {
        values.push(1_000_000 + tenth * 50_000);
        values.push(1_000_000 + tenth * 50_000 + 1);
        values.push(1_000_000 + tenth * 50_000 - 1);
    }
    let mut v = 1_000_003i64;
    while v < i64::MAX / 3 {
        values.push(v);
        values.push(v + v / 2);
        v = v * 3 + 7;
    }
    for value in values.into_iter().filter(|v| v.abs() >= 1_000_000) {
        assert_eq!(format_compact_money(value), through_single_precision(value), "{}", value);
    }
}

#[test]
fn compact_money_below_a_million() {
    assert_eq!(format_compact_money(0), "$0");
    assert_eq!(format_compact_money(-999), "-$999");
    assert_eq!(format_compact_money(1_000), "$1k");
    assert_eq!(format_compact_money(999_999), "$999k");
    assert_eq!(format_compact_money(-12_345), "-$12k");
}

#[test]
fn money_groups_every_three_digits() {
    assert_eq!(format_money(999), "$999");
    assert_eq!(format_money(1_000), "$1,000");
    assert_eq!(format_money(i64::MAX), "$9,223,372,036,854,775,807");
    assert_eq!(format_money(-5), "-$5");
}

#[test]
fn clock_pads_and_wraps() {
    assert_eq!(format_clock(0, 0), "00:00");
    assert_eq!(format_clock(23, 59), "23:59");
    assert_eq!(format_clock(24, 60), "00:00");
    assert_eq!(format_clock(u32::MAX, u32::MAX), "15:15");
}

#[test]
fn capitalize_touches_only_the_first_ascii_letter() {
    assert_eq!(capitalize(""), "");
    assert_eq!(capitalize("potion"), "Potion");
    assert_eq!(capitalize("Potion"), "Potion");
    assert_eq!(capitalize("éclair"), "éclair");
    assert_eq!(capitalize("1st place"), "1st place");
}

#[test]
fn display_name_title_cases_each_word() {
    assert_eq!(display_name("health_potion"), "Health Potion");
    assert_eq!(display_name("a__b"), "A  B");
    assert_eq!(display_name("_x"), " X");
    assert_eq!(display_name(""), "");
    assert_eq!(display_name("already_Fine"), "Already Fine");
}

/// Elapsed time is measured in `f32` seconds; the formatter takes the whole
/// seconds, with negative times counted as zero.
fn whole_seconds(total_seconds: f32) -> u64 {
    total_seconds.max(0.0) as u64
}

#[test]
fn format_formats_durations() {
    assert_eq!(format_mmss(whole_seconds(0.0)), "00:00");
    assert_eq!(format_mmss(whole_seconds(462.9)), "07:42");
    assert_eq!(format_mmss(whole_seconds(4503.0)), "75:03");
    assert_eq!(format_mmss(whole_seconds(-5.0)), "00:00");
    assert_eq!(format_hmmss(whole_seconds(462.9)), "07:42");
    assert_eq!(format_hmmss(whole_seconds(4503.0)), "1:15:03");
}

#[test]
fn tests_formats_durations() {
    assert_eq!(format_mmss(whole_seconds(0.0)), "00:00");
    assert_eq!(format_mmss(whole_seconds(462.9)), "07:42");
    assert_eq!(format_mmss(whole_seconds(4503.0)), "75:03");
    assert_eq!(format_mmss(whole_seconds(-5.0)), "00:00");
    assert_eq!(format_hmmss(whole_seconds(462.9)), "07:42");
    assert_eq!(format_hmmss(whole_seconds(4503.0)), "1:15:03");
}

#[test]
fn durations_switch_to_hours_exactly_at_an_hour() {
    assert_eq!(format_hmmss(3599), "59:59");
    assert_eq!(format_hmmss(3600), "1:00:00");
    assert_eq!(format_hmmss(360_000), "100:00:00");
    assert_eq!(format_mmss(6_000), "100:00");
    assert_eq!(format_mmss(59), "00:59");
    assert_eq!(format_mmss(60), "01:00");
}

#[test]
fn the_long_form_splits_the_short_form_at_the_hour() {
    for total in [3600u64, 3661, 7322, 86_399, 90_061] {
        let long = format_hmmss(total);
        let short = format_mmss(total % 3600);
        assert_eq!(long, format!("{}:{}", total / 3600, short));
    }
    for total in [0u64, 1, 59, 61, 3599] {
        assert_eq!(format_hmmss(total), format_mmss(total));
    }
}
