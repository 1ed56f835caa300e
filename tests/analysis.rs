use folder_rs::filters::{is_stop_word_token, split_fragments, strip_punctuation_token};
use folder_rs::records::parse_shard_count;
use folder_rs::search::score_order_key;
use folder_rs::text::{parse_decimal, split_on};
use folder_rs::{
    analyze, calculate_shard_id, lowercase_filter, punctuation_filter, rank, stop_word_filter,
};

fn strings(v: &[&str]) -> Vec<String> {
    v.iter().map(|s| s.to_string()).collect()
}

#[test]
fn router_values() {
    assert_eq!(calculate_shard_id("lunar", 2), 1);
    assert_eq!(calculate_shard_id("new", 2), 1);
    assert_eq!(calculate_shard_id("year", 2), 1);
    assert_eq!(calculate_shard_id("d2", 2), 0);
    assert_eq!(calculate_shard_id("lunar", 7), 2);
    assert_eq!(calculate_shard_id("new", 7), 6);
    assert_eq!(calculate_shard_id("", 7), 0);
    assert_eq!(calculate_shard_id("anything", 1), 0);
}

#[test]
fn router_wraps_on_wide_code_points() {
    // 0x10FFFF squared overflows 32 bits; the sum wraps.
    let s = "\u{10FFFF}\u{10FFFF}";
    let mut acc: u32 = 0;
    for c in s.chars() {
        let v = c as u32;
        acc = acc.wrapping_add(123456789u32.wrapping_add(v.wrapping_mul(v)));
    }
    assert_eq!(calculate_shard_id(s, 1000), acc.wrapping_mul(123456789) % 1000);
}

#[test]
fn router_stays_in_range_and_is_stable() {
    for n in 1..20u32 {
        for s in ["a", "lunar", "新年", "d1", ""] {
            let k = calculate_shard_id(s, n);
            assert!(k < n);
            assert_eq!(k, calculate_shard_id(s, n));
        }
    }
}

#[test]
fn analyze_splits_lowercases_and_filters() {
    assert_eq!(analyze("Lunar, New\u{3000}YEAR!"), strings(&["lunar", "new", "year"]));
    assert_eq!(analyze("the cat\u{3001}is here"), strings(&["cat", "here"]));
    assert_eq!(analyze("a  b..c"), strings(&["bc"]));
    assert!(analyze("").is_empty());
    assert!(analyze(" , ").is_empty());
}

#[test]
fn analyze_of_joined_texts_concatenates() {
    let a = "Lunar New";
    let b = "the Year, festival";
    let joined = format!("{} {}", a, b);
    let mut expected = analyze(a);
    expected.extend(analyze(b));
    assert_eq!(analyze(&joined), expected);
}

#[test]
fn filters_one_by_one() {
    assert_eq!(lowercase_filter(strings(&["ÄBC", "x"])), strings(&["äbc", "x"]));
    assert_eq!(punctuation_filter(strings(&["a-b.c", "(x)"])), strings(&["abc", "x"]));
    assert_eq!(stop_word_filter(strings(&["the", "cat", "www", "s"])), strings(&["cat"]));
    assert_eq!(strip_punctuation_token("!\"#$%&()*+,-./:;<=>?@[\\]^_`{|}~ok"), "ok");
    assert!(is_stop_word_token("their"));
    assert!(!is_stop_word_token("The"));
    assert_eq!(split_fragments("a,,b"), strings(&["a", "", "b"]));
}

#[test]
fn pieces_and_decimals() {
    assert_eq!(split_on("x:12", ':'), strings(&["x", "12"]));
    assert_eq!(split_on("", ' '), strings(&[""]));
    assert_eq!(parse_decimal("0042"), Some(42));
    assert_eq!(parse_decimal("18446744073709551615"), Some(u64::MAX));
    assert_eq!(parse_decimal("18446744073709551616"), None);
    assert_eq!(parse_decimal("+1"), None);
    assert_eq!(parse_decimal(""), None);
    assert_eq!(parse_shard_count("7\r\n"), Some(7));
    assert_eq!(parse_shard_count("7\n\n"), None);
}

#[test]
fn order_keys_follow_score_order() {
    let values = [-2.5f64, -0.0, 0.0, 0.25, 3.0, f64::INFINITY];
    for w in values.windows(2) {
        assert!(score_order_key(w[0].to_bits()) < score_order_key(w[1].to_bits()));
    }
    assert_eq!(score_order_key(0.0f64.to_bits()), 0x8000_0000_0000_0000);
    assert_eq!(score_order_key((-0.0f64).to_bits()), 0x7FFF_FFFF_FFFF_FFFF);
}

#[test]
fn rank_orders_by_key_then_position() {
    assert_eq!(rank(&vec![5, 9, 5, 1, 9]), vec![1, 4, 0, 2, 3]);
    assert_eq!(rank(&vec![]), Vec::<usize>::new());
}
