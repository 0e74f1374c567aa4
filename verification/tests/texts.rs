use semantic_search::decimal::push_decimal;
use semantic_search::score::{score_of_count, Score};
use semantic_search::text::{
    byte_count, char_width, first_line, same_text, slice_text, starts_with, trim, trim_end,
    trim_end_char, trim_start,
};
use semantic_search::tokens::tokenize_for_search;
use semantic_search::wide::{push_score, widen, WideScore};

fn score(value: f32) -> Score {
    Score {
        bits: value.to_bits(),
    }
}

fn shown(value: f64) -> String {
    let mut out = String::new();
    let wide = WideScore {
        bits: value.to_bits(),
    };
    push_score(&mut out, wide);
    out
}

#[test]
fn white_space_is_what_the_standard_library_takes_it_for() {
    for c in '\0'..=char::MAX {
        let text = format!("{c}x{c}");
        assert_eq!(trim(&text), text.trim(), "{c:?}");
        assert_eq!(trim_start(&text), text.trim_start());
        assert_eq!(trim_end(&text), text.trim_end());
    }
}

#[test]
fn ascii_letters_and_digits_make_words() {
    for byte in 0u8..128 {
        let c = byte as char;
        let terms = tokenize_for_search(&c.to_string());
        if c.is_ascii_alphanumeric() || c == '_' {
            assert_eq!(terms, vec![c.to_ascii_lowercase().to_string()]);
        } else {
            assert!(terms.is_empty());
        }
    }
}

#[test]
fn words_follow_the_standard_library_for_every_character() {
    for c in '\0'..=char::MAX {
        let terms = tokenize_for_search(&c.to_string());
        if c.is_alphanumeric() || c == '_' {
            assert_eq!(terms, vec![c.to_lowercase().collect::<String>()]);
        } else {
            assert!(terms.is_empty());
        }
    }
}

#[test]
fn slices_need_boundaries() {
    let text = "aé😀z";
    assert_eq!(byte_count(text), 8);
    for start in 0..10 {
        for end in 0..10 {
            assert_eq!(slice_text(text, start, end), text.get(start..end));
        }
    }
    for c in ['a', 'é', '€', '😀'] {
        assert_eq!(char_width(c), c.len_utf8());
    }
}

#[test]
fn texts_are_trimmed_and_compared_by_characters() {
    assert_eq!(trim_end_char("a//b///", '/'), "a//b");
    assert_eq!(trim_end_char("///", '/'), "");
    assert_eq!(first_line("one\ntwo"), "one");
    assert_eq!(first_line("one"), "one");
    assert_eq!(first_line("\n"), "");
    assert!(same_text("é", "é"));
    assert!(!same_text("é", "e"));
    assert!(!same_text("a", "ab"));
    assert!(starts_with("éab", "éa"));
    assert!(!starts_with("éab", "éb"));
    assert!(!starts_with("é", "éa"));
    assert!(starts_with("x", ""));
}

#[test]
fn numbers_are_written_in_decimal() {
    for value in [0u128, 7, 10, 99, 100, 65_536, u64::MAX as u128, u128::MAX] {
        let mut out = "n".to_string();
        push_decimal(&mut out, value);
        assert_eq!(out, format!("n{value}"));
    }
}

#[test]
fn scores_are_written_with_three_digits() {
    assert_eq!(shown(0.87), "0.870");
    assert_eq!(shown(-1.5), "-1.500");
    assert_eq!(shown(0.0625), "0.062");
    assert_eq!(shown(0.1875), "0.188");
    assert_eq!(shown(0.0025), "0.003");
    assert_eq!(shown(f64::from(0.0025f32)), "0.002");
    assert_eq!(shown(1e22), "10000000000000000000000.000");
    let samples = [
        0.0,
        -0.0,
        1.0,
        0.0005,
        0.00049,
        0.9995,
        0.99951,
        123.4567,
        -0.0001,
        1e-40,
        5e-324,
        f64::MIN_POSITIVE,
        9_007_199_254_740_991.0,
        9_007_199_254_740_992.0,
        4_503_599_627_370_495.5,
        2_251_799_813_685_247.75,
        3.5e20,
        1e300,
        f64::MIN,
        f64::MAX,
        f64::INFINITY,
        f64::NEG_INFINITY,
        f64::NAN,
    ];
    for value in samples {
        assert_eq!(shown(value), format!("{value:.3}"));
    }
    let mut bits: u64 = 1;
    let mut next = || {
        bits = bits
            .wrapping_mul(6_364_136_223_846_793_005)
            .wrapping_add(1_442_695_040_888_963_407);
        bits
    };
    for _ in 0..1_000 {
        let value = f64::from_bits(next());
        assert_eq!(shown(value), format!("{value:.3}"));
    }
    // Values between a thousandth of a thousandth and a million.
    for _ in 0..100_000 {
        let drawn = next();
        let exponent = 1003 + drawn % 40;
        let value = f64::from_bits((exponent << 52) + (drawn >> 12));
        assert_eq!(shown(value), format!("{value:.3}"));
    }
    // Every sixteenth between -4 and 4: half of these lie between two thousandths.
    for sixteenth in -64..=64 {
        let value = f64::from(sixteenth) / 16.0;
        assert_eq!(shown(value), format!("{value:.3}"));
    }
}

#[test]
fn widened_scores_keep_their_values() {
    let check = |value: f32| {
        let wide = f64::from_bits(widen(score(value)).bits);
        if value.is_nan() {
            assert!(wide.is_nan());
            assert_eq!(wide.is_sign_negative(), value.is_sign_negative());
        } else {
            assert_eq!(wide.to_bits(), f64::from(value).to_bits(), "{value}");
        }
    };
    assert_eq!(widen(score(0.5)).bits, 0x3fe0_0000_0000_0000);
    let samples = [
        0.0,
        -0.0,
        1.0,
        -0.87,
        f32::from_bits(1),
        f32::from_bits(0x7f_ffff),
        f32::from_bits(0x8040_0000),
        f32::MIN_POSITIVE,
        f32::MIN,
        f32::MAX,
        f32::INFINITY,
        f32::NEG_INFINITY,
        f32::NAN,
        -f32::NAN,
    ];
    for value in samples {
        check(value);
    }
    let mut bits: u32 = 1;
    for _ in 0..200_000 {
        bits = bits.wrapping_mul(1_664_525).wrapping_add(1_013_904_223);
        check(f32::from_bits(bits));
        check(f32::from_bits(bits % 0x80_0000));
    }
}

#[test]
fn scores_compare_as_numbers_do() {
    let values = [
        0.0,
        -0.0,
        1.0,
        -1.0,
        0.59,
        0.6,
        1e-40,
        -1e-40,
        f32::MAX,
        f32::INFINITY,
        f32::NEG_INFINITY,
        f32::NAN,
        -f32::NAN,
    ];
    for left in values {
        for right in values {
            assert_eq!(score(left).is_less_than(score(right)), left < right);
            assert_eq!(
                score(left).place().cmp(&score(right).place()),
                left.total_cmp(&right)
            );
        }
    }
    assert_eq!(Score::zero(), score(0.0));
}

#[test]
fn counts_become_the_nearest_scores() {
    let mut counts: Vec<usize> = (0..70_000).collect();
    for power in 16..64u32 {
        let base = 1usize << power;
        for distance in 0..40usize {
            counts.push(base + distance);
            counts.push(base - distance);
            counts.push(base + (base >> 24) * distance);
            counts.push(base + (base >> 25) * distance);
            counts.push((base + (base >> 25) * distance).wrapping_add(1));
        }
    }
    counts.push(usize::MAX);
    counts.push(usize::MAX - 1);
    for count in counts {
        assert_eq!(score_of_count(count), score(count as f32), "{count}");
    }
}
