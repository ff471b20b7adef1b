use ds4linux::number::{decimal_text, hexadecimal_text, parse_byte};
use ds4linux::order::{sort_by_key, sort_texts, text_before};
use ds4linux::single::{clamp_binterval, Single, ONE_BITS};
use ds4linux::{high_speed_hz_from_binterval, high_speed_interval_ms_from_binterval};

fn number(single: Single) -> f32 {
    f32::from_bits(single.bits)
}

#[test]
fn dualsense_high_speed_binterval_four_is_1000hz() {
    assert_eq!(number(high_speed_interval_ms_from_binterval(4)), 1.0);
    assert_eq!(number(high_speed_hz_from_binterval(4)), 1000.0);
}

#[test]
fn intervals_and_rates_are_those_of_the_formula() {
    for binterval in 0..=255u8 {
        let steps = i32::from(binterval.clamp(1, 16)) - 1;
        let interval = 2_f32.powi(steps) / 8.0;
        assert_eq!(number(high_speed_interval_ms_from_binterval(binterval)), interval);
        assert_eq!(number(high_speed_hz_from_binterval(binterval)), 1000.0 / interval);
        assert_eq!(clamp_binterval(binterval), binterval.clamp(1, 16));
    }
    assert_eq!(number(high_speed_interval_ms_from_binterval(1)), 0.125);
    assert_eq!(number(high_speed_hz_from_binterval(1)), 8000.0);
    assert_eq!(number(high_speed_interval_ms_from_binterval(16)), 4096.0);
}

#[test]
fn interval_and_rate_make_one_second() {
    for binterval in 1..=16u8 {
        let interval = number(high_speed_interval_ms_from_binterval(binterval));
        let rate = number(high_speed_hz_from_binterval(binterval));
        assert_eq!(interval * rate, 1000.0);
    }
}

fn sample_numbers() -> Vec<f32> {
    vec![
        f32::NEG_INFINITY,
        f32::MIN,
        -1.5,
        -1.0,
        -0.08,
        -f32::MIN_POSITIVE,
        f32::from_bits(0x8000_0001),
        -0.0,
        0.0,
        f32::from_bits(1),
        f32::MIN_POSITIVE,
        0.08,
        0.99,
        1.0,
        1.5,
        f32::MAX,
        f32::INFINITY,
        f32::NAN,
        -f32::NAN,
    ]
}

#[test]
fn order_of_singles_is_order_of_numbers() {
    for a in sample_numbers() {
        for b in sample_numbers() {
            let x = Single::from_bits(a.to_bits());
            let y = Single::from_bits(b.to_bits());
            assert_eq!(x.is_below(y), a < b, "{a} < {b}");
            assert_eq!(x == y, a == b, "{a} == {b}");
        }
        assert_eq!(Single::from_bits(a.to_bits()).not_a_number(), a.is_nan());
    }
}

#[test]
fn clamped_singles_are_clamped_numbers() {
    let low = Single::from_bits(0.0f32.to_bits());
    let high = Single::from_bits(ONE_BITS);
    for a in sample_numbers() {
        let clamped = Single::from_bits(a.to_bits()).clamp(low, high);
        assert_eq!(clamped.bits, a.clamp(0.0, 1.0).to_bits(), "{a}");
        assert_eq!(clamped.clamp(low, high).bits, clamped.bits);
    }
}

#[test]
fn decimals_are_written_and_read_back() {
    for n in 0..=255u8 {
        assert_eq!(decimal_text(n), n.to_string());
        assert_eq!(parse_byte(&decimal_text(n)), Some(n));
    }
}

#[test]
fn bytes_are_parsed_as_the_standard_library_does() {
    let texts = vec![
        "", "+", "-", "+4", "-4", "-0", "++4", "4", "04", "0000000000000000000004", "255", "256",
        "260", "999", "99999999999999999999999", " 4", "4 ", "4a", "a4", "1_0", "+255", "+256",
        "\u{664}",
    ];
    for text in texts {
        assert_eq!(parse_byte(text), text.parse::<u8>().ok(), "{text:?}");
    }
    assert_eq!(parse_byte("+16"), Some(16));
    assert_eq!(parse_byte("256"), None);
}

#[test]
fn hexadecimals_have_four_digits() {
    for n in 0..=u16::MAX {
        assert_eq!(hexadecimal_text(n), format!("{n:04x}"));
    }
    assert_eq!(hexadecimal_text(0x054c), "054c");
}

#[test]
fn texts_are_ordered_as_strings_are() {
    let texts = vec!["", "a", "ab", "b", "event1", "event10", "event2", "\u{e9}", "\u{ffff}", "\u{10000}"];
    for a in &texts {
        for b in &texts {
            assert_eq!(text_before(a, b), a < b, "{a:?} < {b:?}");
        }
    }
}

#[test]
fn texts_are_sorted_as_strings_are() {
    let texts: Vec<String> = vec!["10", "2", "1", "", "2", "b", "a"]
        .into_iter()
        .map(String::from)
        .collect();
    let mut expected = texts.clone();
    expected.sort();
    assert_eq!(sort_texts(texts.clone()), expected);
    assert_eq!(sort_by_key(texts), expected);
    assert_eq!(sort_texts(Vec::new()), Vec::<String>::new());
}
