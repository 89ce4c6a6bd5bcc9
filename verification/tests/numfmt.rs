use ferrix_core::numfmt::{Computed, DateParts, FmtColor, NumFmt, NumberOps};
use ferrix_core::value::F64;

fn num(x: f64) -> F64 {
    F64(x.to_bits())
}

fn float(x: F64) -> f64 {
    f64::from_bits(x.0)
}

fn limits(f: &NumFmt) -> Vec<F64> {
    f.limits()
        .iter()
        .map(|s| num(s.parse().unwrap_or(0.0)))
        .collect()
}

fn half_up(v: f64, places: usize) -> String {
    let factor = 10f64.powi(places as i32);
    let scaled = v * factor;
    let rounded = if scaled.is_finite() {
        scaled.round() / factor
    } else {
        v
    };
    format!("{:.*}", places, rounded)
}

fn parts_of(serial: f64) -> DateParts {
    let whole = serial.floor();
    let days = whole as i64;
    let seconds = ((serial - whole) * 86400.0).round() as i64;
    // Days since 1970-01-01, whose serial is 25569.
    let z = days - 25569 + 719468;
    let era = z.div_euclid(146097);
    let doe = z.rem_euclid(146097);
    let yoe = (doe - doe / 1460 + doe / 36524 - doe / 146096) / 365;
    let doy = doe - (365 * yoe + yoe / 4 - yoe / 100);
    let mp = (5 * doy + 2) / 153;
    let day = (doy - (153 * mp + 2) / 5 + 1) as u32;
    let month = (if mp < 10 { mp + 3 } else { mp - 9 }) as u32;
    let year = yoe + era * 400 + if month <= 2 { 1 } else { 0 };
    DateParts {
        year,
        month,
        day,
        hour: (seconds / 3600) as u32,
        minute: (seconds / 60 % 60) as u32,
        second: (seconds % 60) as u32,
        weekday: (days - 1).rem_euclid(7) as u32,
        elapsed_hours: (serial * 24.0).floor() as i64,
        elapsed_minutes: (serial * 1440.0).floor() as i64,
        elapsed_seconds: (serial * 86400.0).floor() as i64,
    }
}

fn show(f: &NumFmt, v: f64) -> String {
    let ops = NumberOps {
        times: |a: F64, b: F64| num(float(a) * float(b)),
        over: |a: F64, b: F64| num(float(a) / float(b)),
        rounded: |a: F64, places: usize| half_up(float(a), places),
        exponent: |a: F64| (float(a).abs().log10().floor() as i32).max(i32::MIN + 1),
        mantissa: |a: F64, e: i32, places: usize| format!("{:.*}", places, float(a) / 10f64.powi(e)),
        plain: |a: F64| format!("{}", float(a)),
        date: |a: F64| parts_of(if float(a).is_finite() { float(a) } else { 0.0 }),
    };
    f.render_with(num(v), &limits(f), &ops)
}

fn color(f: &NumFmt, v: f64) -> Option<FmtColor> {
    f.color_for(num(v), &limits(f))
}

fn r(code: &str, v: f64) -> String {
    show(&NumFmt::parse(code), v)
}

#[test]
fn zero_placeholder_pads_to_its_width() {
    assert_eq!(r("0", 5.0), "5");
    assert_eq!(r("00", 5.0), "05");
    assert_eq!(r("0000", 42.0), "0042");
    assert_eq!(r("0.00", 1.5), "1.50");
    assert_eq!(r("0.00", 3.0), "3.00");
}

#[test]
fn hash_placeholder_shows_nothing_for_absent_digits() {
    assert_eq!(r("#.##", 1.5), "1.5");
    assert_eq!(r("#.##", 1.0), "1");
    assert_eq!(r("0.##", 1.0), "1");
    assert_eq!(r("#", 0.0), "");
    assert_eq!(r("0", 0.0), "0");
}

#[test]
fn rounding_happens_at_the_declared_precision() {
    assert_eq!(r("0.0", 1.25), "1.3");
    assert_eq!(r("0", 1.5), "2");
    assert_eq!(r("0", 2.5), "3");
    assert_eq!(r("0.00", 1.005), "1.00");
}

#[test]
fn thousands_separators_group_by_three() {
    assert_eq!(r("#,##0", 1234.0), "1,234");
    assert_eq!(r("#,##0", 1234567.0), "1,234,567");
    assert_eq!(r("#,##0", 100.0), "100");
    assert_eq!(r("#,##0.00", 1234567.891), "1,234,567.89");
    assert_eq!(r("#,##0", 999.0), "999");
    assert_eq!(r("#,##0", 1000.0), "1,000");
}

#[test]
fn trailing_comma_scales_by_a_thousand_each() {
    assert_eq!(r("#,##0,", 1_234_567.0), "1,235");
    assert_eq!(r("#,##0,,", 1_234_567_890.0), "1,235");
    assert_eq!(r("0.0,,", 2_500_000.0), "2.5");
}

#[test]
fn percent_multiplies_by_one_hundred() {
    assert_eq!(r("0%", 0.5), "50%");
    assert_eq!(r("0.0%", 0.1234), "12.3%");
    assert_eq!(r("0%", 1.0), "100%");
}

#[test]
fn two_sections_split_positive_and_negative() {
    let f = NumFmt::parse("0.00;(0.00)");
    assert_eq!(show(&f, 5.0), "5.00");
    assert_eq!(show(&f, -5.0), "(5.00)");
    assert_eq!(show(&f, 0.0), "0.00");
}

#[test]
fn three_sections_give_zero_its_own_form() {
    let f = NumFmt::parse("0.00;-0.00;\"zero\"");
    assert_eq!(show(&f, 1.0), "1.00");
    assert_eq!(show(&f, -1.0), "-1.00");
    assert_eq!(show(&f, 0.0), "zero");
}

#[test]
fn a_single_section_still_signs_negatives() {
    assert_eq!(r("0.00", -5.0), "-5.00");
    assert_eq!(r("#,##0", -1234.0), "-1,234");
}

#[test]
fn the_fourth_section_formats_text_only() {
    let f = NumFmt::parse("0.00;-0.00;0;\"[\"@\"]\"");
    assert_eq!(f.render_text("hi"), "[hi]");
    assert_eq!(show(&f, 1.0), "1.00");
}

#[test]
fn text_passes_through_when_no_text_section_exists() {
    let f = NumFmt::parse("0.00");
    assert_eq!(f.render_text("hello"), "hello");
}

#[test]
fn colour_tokens_are_extracted_per_section() {
    let f = NumFmt::parse("[Blue]#,##0.00;[Red](#,##0.00)");
    assert_eq!(color(&f, 1.0), Some(FmtColor::Blue));
    assert_eq!(color(&f, -1.0), Some(FmtColor::Red));
    assert_eq!(show(&f, -1234.5), "(1,234.50)");
}

#[test]
fn indexed_colour_tokens_parse() {
    let f = NumFmt::parse("[Color 3]0");
    assert_eq!(color(&f, 1.0), Some(FmtColor::Red));
}

#[test]
fn conditional_sections_select_by_predicate() {
    let f = NumFmt::parse("[>=1000]#,##0,\"k\";[>0]0.00;\"neg\"");
    assert_eq!(show(&f, 5000.0), "5k");
    assert_eq!(show(&f, 12.5), "12.50");
    assert_eq!(show(&f, -3.0), "neg");
}

#[test]
fn quoted_and_escaped_literals_are_emitted_verbatim() {
    assert_eq!(r("\"$\"#,##0", 1234.0), "$1,234");
    assert_eq!(r("0\" units\"", 7.0), "7 units");
    assert_eq!(r("\\$0", 5.0), "$5");
}

#[test]
fn a_semicolon_inside_a_literal_is_not_a_section_break() {
    let f = NumFmt::parse("\"a;b\"0");
    assert_eq!(show(&f, 1.0), "a;b1");
}

#[test]
fn currency_blocks_keep_the_symbol_and_drop_the_locale_id() {
    assert_eq!(r("[$\u{20ac}-407]#,##0.00", 1234.5), "\u{20ac}1,234.50");
    assert_eq!(r("[$-409]#,##0", 1234.0), "1,234");
}

#[test]
fn scientific_notation_renders_with_a_signed_exponent() {
    assert_eq!(r("0.00E+00", 12345.0), "1.23E+04");
    assert_eq!(r("0.00E+00", 0.00012), "1.20E-04");
    assert_eq!(r("0.00E+00", 0.0), "0.00E+00");
}

#[test]
fn date_tokens_render_the_calendar_parts() {
    let s = 45000.0;
    assert_eq!(r("yyyy-mm-dd", s), "2023-03-15");
    assert_eq!(r("m/d/yyyy", s), "3/15/2023");
    assert_eq!(r("dd/mm/yy", s), "15/03/23");
    assert_eq!(r("mmm yyyy", s), "Mar 2023");
    assert_eq!(r("mmmm d, yyyy", s), "March 15, 2023");
}

#[test]
fn m_means_minute_next_to_an_hour_and_month_otherwise() {
    let s = 45000.5;
    assert_eq!(r("h:mm", s), "12:00");
    assert_eq!(r("mm/dd", s), "03/15");
    assert_eq!(r("h:m:s", s), "12:0:0");
}

#[test]
fn twelve_hour_clock_folds_the_hour_and_marks_the_half() {
    let morning = 45000.0 + 9.0 / 24.0;
    let evening = 45000.0 + 21.0 / 24.0;
    assert_eq!(r("h:mm AM/PM", morning), "9:00 AM");
    assert_eq!(r("h:mm AM/PM", evening), "9:00 PM");
    assert_eq!(r("h AM/PM", 45000.0), "12 AM");
    assert_eq!(r("h AM/PM", 45000.5), "12 PM");
}

#[test]
fn elapsed_tokens_are_not_clamped_to_a_clock() {
    assert_eq!(r("[h]", 3.0), "72");
    assert_eq!(r("[m]", 1.0), "1440");
    assert_eq!(r("[s]", 1.0), "86400");
}

#[test]
fn an_unmodelled_code_renders_as_a_plain_number_not_as_nothing() {
    let out = r("# ?/?", 0.5);
    assert!(
        !out.is_empty(),
        "an unmodelled code must still render the value, got empty"
    );
}

#[test]
fn parsing_never_panics_on_hostile_input() {
    for code in [
        "",
        ";",
        ";;;",
        "[",
        "]",
        "\"unterminated",
        "\\",
        "[Red]",
        "[>]",
        "0.00E+",
        "########################################",
        ";;;;;;;;",
        "@@@@",
        "[h]:[m]:[s]",
    ] {
        let f = NumFmt::parse(code);
        let _ = show(&f, 1.0);
        let _ = show(&f, -1.0);
        let _ = show(&f, 0.0);
        let _ = f.render_text("x");
        let _ = show(&f, f64::NAN);
        let _ = show(&f, f64::INFINITY);
    }
}

#[test]
fn a_parsed_format_is_reusable_across_many_values() {
    let f = NumFmt::parse("#,##0.00");
    let mut last = String::new();
    for i in 0..1000 {
        last = show(&f, i as f64 * 1.5);
    }
    assert_eq!(last, "1,498.50");
}

#[test]
fn digits_group_from_the_right() {
    assert_eq!(ferrix_core::numfmt::group3("1234567"), "1,234,567");
    assert_eq!(ferrix_core::numfmt::group3("123"), "123");
    assert_eq!(ferrix_core::numfmt::group3(""), "");
    assert!(!NumFmt::parse("0.00").is_trivial());
    assert_eq!(FmtColor::Red.rgb(), (0xd6, 0x38, 0x3c));
}

#[test]
fn what_was_computed_goes_where_the_code_says() {
    let f = NumFmt::parse("0.0 \"units\";(0.0)");
    let computed = Computed {
        plain: "unused".to_string(),
        body: "7.5".to_string(),
        date: DateParts::default(),
    };
    assert_eq!(f.render(num(7.5), &limits(&f), &computed), "7.5 units");
    assert_eq!(f.render(num(-7.5), &limits(&f), &computed), "(7.5)");
}

#[test]
fn unmodelled_codes_show_the_plain_number() {
    assert_eq!(r("# ?/?", 0.5), "0.5");
    assert_eq!(r("# ??/??", 1234.25), "1234.25");
    assert_eq!(r("# ?/8", -0.75), "-0.75");
    assert_eq!(r("0/10", 2.0), "2");
    assert_eq!(r("[DBNum1]0.00", 3.5), "3.5");
    assert_eq!(r("[DBNum2]#,##0;0", 1234.0), "1234");
    // A slash that no denominator follows stands for itself.
    assert_eq!(r("0 /\"h\"", 7.0), "7 /h");
}
