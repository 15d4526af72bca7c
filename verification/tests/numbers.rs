use scroll_core::decimal::{fixed3_text, index_text, parse_index};
use scroll_core::rng::{Lcg, Mulberry};

#[test]
fn mulberry_is_bit_exact() {
    let mut r = Mulberry(1248);
    assert_eq!(r.next_u32(), 1628519944);
    assert_eq!(r.next_u32(), 1049130340);
    assert_eq!(r.next_u32(), 1828507633);
    assert_eq!(r.next_u32(), 792790262);
    let mut z = Mulberry(0);
    assert_eq!(z.next_u32(), 1144304738);
    assert_eq!(z.0, 0x6D2B79F5);
}

#[test]
fn mulberry_scaled_draws() {
    let mut r = Mulberry(1248);
    let picks: Vec<u32> = (0..4).map(|_| r.below(5)).collect();
    assert_eq!(picks, vec![1, 1, 2, 0]);
    let mut f = Mulberry(1248);
    for _ in 0..100 {
        let a = f.next_u32() as f64 / 4294967296.0;
        let mut g = Mulberry(f.0.wrapping_sub(0x6D2B79F5));
        assert_eq!(g.below(7), (a * 7.0).floor() as u32);
    }
}

#[test]
fn lcg_steps() {
    let mut l = Lcg(1248);
    assert_eq!(l.next_u32(), 3091231423);
    assert_eq!(l.next_u32(), 2048123154);
}

#[test]
fn thousandths_round_half_away_from_zero() {
    assert_eq!(fixed3_text("1.23450000", false), "1.235");
    assert_eq!(fixed3_text("1.23449999", false), "1.234");
    assert_eq!(fixed3_text("9.99950000", false), "10.000");
    assert_eq!(fixed3_text("99.9996", true), "-100.000");
    assert_eq!(fixed3_text("0.00049999", true), "-0.000");
    assert_eq!(fixed3_text("123.45600000", false), "123.456");
    assert_eq!(fixed3_text("0.0000", false), "0.000");
}

#[test]
fn thousandths_of_real_expansions() {
    for x in [0.0005f64, 2.675, 1.0005, 12.3456789, 0.1, 250.0, 0.25] {
        let exact = format!("{:.40}", x);
        let text = fixed3_text(&exact, false);
        let back: f64 = text.parse().unwrap();
        assert!((back - x).abs() <= 0.0005 + 1e-12, "{x} -> {text}");
    }
    assert_eq!(fixed3_text(&format!("{:.40}", 0.0625f64), false), "0.063");
}

#[test]
fn index_text_and_parse() {
    assert_eq!(index_text(0), "0");
    assert_eq!(index_text(7), "7");
    assert_eq!(index_text(1248), "1248");
    assert_eq!(index_text(usize::MAX), usize::MAX.to_string());
    for n in [0usize, 9, 10, 99, 100, 65535, 4000000000] {
        assert_eq!(parse_index(&index_text(n)), Some(n));
        assert_eq!(parse_index(&n.to_string()), n.to_string().parse::<usize>().ok());
    }
    assert_eq!(parse_index("+12"), Some(12));
    assert_eq!(parse_index("007"), Some(7));
    assert_eq!(parse_index(""), None);
    assert_eq!(parse_index("+"), None);
    assert_eq!(parse_index("-1"), None);
    assert_eq!(parse_index("1a"), None);
    assert_eq!(parse_index(" 1"), None);
    let too_big = format!("{}0", usize::MAX);
    assert_eq!(parse_index(&too_big), None);
    for s in ["+", "++1", "12", "1_0", "٣"] {
        assert_eq!(parse_index(s), s.parse::<usize>().ok(), "{s}");
    }
}
