use mlx_gen_vision::binary32::{count_ratio, scale_count, scale_integer, Binary32};
use mlx_gen_vision::layout::padding_for;
use mlx_gen_vision::text::{
    contains, decimal, ends_with, is_blank, last_segment, parse_usize, replace_all, rsplit_once,
    signed_decimal, split_once, strip_prefix, strip_suffix,
};

fn f(v: f32) -> Binary32 {
    Binary32 { bits: v.to_bits() }
}

const VALUES: [f32; 14] = [
    f32::NEG_INFINITY,
    -1e30,
    -1.5,
    -1.0,
    -1e-45,
    -0.0,
    0.0,
    1e-45,
    0.1,
    1.0,
    1.5,
    1e30,
    f32::INFINITY,
    f32::NAN,
];

#[test]
fn comparisons_agree_with_single_precision() {
    for a in VALUES {
        for b in VALUES {
            assert_eq!(f(a).lt(&f(b)), a < b, "{a} < {b}");
            assert_eq!(f(a).gt(&f(b)), a > b, "{a} > {b}");
            assert_eq!(f(a).le(&f(b)), a <= b, "{a} <= {b}");
            assert_eq!(f(a).ge(&f(b)), a >= b, "{a} >= {b}");
            let above = a != b && a.total_cmp(&b).is_gt();
            assert_eq!(f(a).ranks_above(&f(b)), above, "{a} over {b}");
        }
        assert_eq!(f(a).is_nan(), a.is_nan());
        assert_eq!(f(a).neg().bits, (-a).to_bits());
        assert_eq!(f(a).cap(&f(-10.0)).bits, a.min(-10.0).to_bits());
    }
}

#[test]
fn ratios_round_as_single_precision_does() {
    for d in 1..200u64 {
        for n in 0..=d {
            assert_eq!(count_ratio(n, d), f(n as f32 / d as f32), "{n}/{d}");
        }
    }
    let large = [
        (1, 16_777_216),
        (16_777_215, 16_777_216),
        (16_777_217, 16_777_219),
        (33_554_431, 33_554_433),
        (1, u64::MAX),
        (u64::MAX, u64::MAX),
        (u64::MAX / 3, u64::MAX),
        ((1 << 40) + 12_345, (1 << 63) + 99),
        (123_456_789_012, 987_654_321_098_765),
    ];
    for (n, d) in large {
        assert_eq!(count_ratio(n, d), f(n as f32 / d as f32), "{n}/{d}");
    }
}

#[test]
fn products_round_as_single_precision_does() {
    let factors = [0.0f32, 1e-45, 1e-38, 0.1, 0.3, 0.5, 0.99999994, 1.0, 1.9, 2.0, 3.3, 1e9, 1e18];
    let counts = [
        0u64,
        1,
        2,
        3,
        7,
        96,
        144,
        1000,
        16_777_215,
        16_777_217,
        4_294_967_295,
        (1 << 40) + 1,
        (1 << 62) + 3,
        u64::MAX,
    ];
    for n in counts {
        for x in factors {
            let want = (n as f32 * x) as u64;
            assert_eq!(scale_count(n, f(x), u64::MAX), want, "{n} * {x}");
            assert_eq!(scale_count(n, f(x), 1000), want.min(1000), "{n} * {x}");
        }
    }
}

#[test]
fn texts_are_split_and_joined() {
    assert_eq!(strip_prefix("encoder.x", "encoder."), Some("x"));
    assert_eq!(strip_prefix("x", "encoder."), None);
    assert_eq!(strip_suffix("a.gamma", ".gamma"), Some("a"));
    assert!(ends_with("a.gamma", ".gamma"));
    assert!(contains("a.b.c", ".b."));
    assert!(!contains("a.b", ".b."));
    assert_eq!(split_once("a.b.c", '.'), Some(("a", "b.c")));
    assert_eq!(rsplit_once("a.b.c", '.'), Some(("a.b", "c")));
    assert_eq!(rsplit_once("abc", '.'), None);
    assert_eq!(last_segment("a.b", '.'), "b");
    assert_eq!(last_segment("ab", '.'), "ab");
    assert_eq!(replace_all("aXbXc", "X", "--"), "a--b--c");
    assert_eq!(replace_all("ääö", "ä", "a"), "aaö");
}

#[test]
fn numbers_read_back() {
    for n in [0u64, 7, 10, 99, 100, 12_345, u64::MAX] {
        assert_eq!(decimal(n), n.to_string());
        assert_eq!(parse_usize(&decimal(n)), n.to_string().parse::<usize>().ok());
    }
    for s in ["", "+", "+3", "03", "-1", "1a", "99999999999999999999999", "18446744073709551616"] {
        assert_eq!(parse_usize(s), s.parse::<usize>().ok(), "{s}");
    }
    for n in [0, 5, -5, i32::MAX, i32::MIN] {
        assert_eq!(signed_decimal(n), n.to_string());
    }
}

#[test]
fn white_space_agrees_with_trimming() {
    for code in 0..0x11_0000u32 {
        if let Some(c) = char::from_u32(code) {
            let s = c.to_string();
            if is_blank(&s) != s.trim().is_empty() {
                panic!("character {code:x}");
            }
        }
    }
    assert!(is_blank(""));
    assert!(is_blank(" \t\r\n"));
    assert!(!is_blank(" a "));
}

#[test]
fn windows_are_filled_with_the_least_padding() {
    assert_eq!(padding_for(12, 8), 4);
    assert_eq!(padding_for(16, 8), 0);
    assert_eq!(padding_for(0, 8), 0);
    assert_eq!(padding_for(1, 1), 0);
}

#[test]
fn integers_scale_as_single_precision_does() {
    let factors = VALUES.iter().copied().chain([2.0, 0.3, -2.0, 1e-3, 4e9, -4e9, 1e38, -1e38]);
    for x in factors {
        for n in [0, 1, -1, 3, -7, 96, 16_777_217, -16_777_219, i32::MAX, i32::MIN] {
            assert_eq!(scale_integer(n, f(x)), (n as f32 * x) as i32, "{n} * {x}");
        }
    }
}
