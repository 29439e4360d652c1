use rust_ising::bits::Spins;
use rust_ising::config_hex::{bitvec_to_hex_string, config_from_hex_tokens, HexConfigError};
use rust_ising::text::{parse_unsigned, split_whitespace, trim_chars};

fn chars(s: &str) -> Vec<char> {
    s.chars().collect()
}

fn token_list(s: &str) -> Vec<Vec<char>> {
    split_whitespace(&chars(s))
}

#[test]
fn hex_string_packs_bits_least_significant_first() {
    let bits = vec![true, false, true, true, false, false, false, false, true];
    let config = Spins::from_bools(&bits);
    assert_eq!(bitvec_to_hex_string(&config), "0d 01");
}

#[test]
fn hex_string_of_empty_configuration() {
    let config = Spins::from_bools(&vec![]);
    assert_eq!(bitvec_to_hex_string(&config), "");
}

#[test]
fn hex_string_of_full_bytes() {
    let config = Spins::from_bools(&vec![true; 16]);
    assert_eq!(bitvec_to_hex_string(&config), "ff ff");
    let config = Spins::from_bools(&vec![false, false, false, false, false, false, false, true]);
    assert_eq!(bitvec_to_hex_string(&config), "80");
}

#[test]
fn hex_tokens_read_back() {
    let config = config_from_hex_tokens(&token_list("0d 01 0.5"), 9).ok().unwrap();
    assert_eq!(
        config.to_bools(),
        vec![true, false, true, true, false, false, false, false, true]
    );
}

#[test]
fn hex_round_trip_over_many_words() {
    let bits: Vec<bool> = (0..200).map(|i| (i * 7 + 3) % 5 < 2).collect();
    let config = Spins::from_bools(&bits);
    let text = bitvec_to_hex_string(&config);
    let back = config_from_hex_tokens(&token_list(&text), 200).ok().unwrap();
    assert_eq!(back.to_bools(), bits);
}

#[test]
fn hex_tokens_errors() {
    assert!(matches!(
        config_from_hex_tokens(&token_list("0d"), 9),
        Err(HexConfigError::MissingEntry)
    ));
    assert!(matches!(
        config_from_hex_tokens(&token_list("0d zz"), 9),
        Err(HexConfigError::NotHex)
    ));
    assert!(matches!(
        config_from_hex_tokens(&token_list("100"), 3),
        Err(HexConfigError::NotHex)
    ));
    assert!(matches!(
        config_from_hex_tokens(&token_list("zz"), 20),
        Err(HexConfigError::NotHex)
    ));
}

#[test]
fn parse_unsigned_follows_from_str_radix() {
    assert_eq!(parse_unsigned(&chars("ff"), 16, 255), Some(255));
    assert_eq!(parse_unsigned(&chars("+1F"), 16, 255), Some(31));
    assert_eq!(parse_unsigned(&chars("0000ff"), 16, 255), Some(255));
    assert_eq!(parse_unsigned(&chars("100"), 16, 255), None);
    assert_eq!(parse_unsigned(&chars(""), 16, 255), None);
    assert_eq!(parse_unsigned(&chars("+"), 16, 255), None);
    assert_eq!(parse_unsigned(&chars("-1"), 10, 255), None);
    assert_eq!(parse_unsigned(&chars("g"), 16, 255), None);
    assert_eq!(parse_unsigned(&chars("18446744073709551615"), 10, u64::MAX), Some(u64::MAX));
    assert_eq!(parse_unsigned(&chars("18446744073709551616"), 10, u64::MAX), None);
    assert_eq!(parse_unsigned(&chars("42"), 10, 41), None);
}

#[test]
fn split_whitespace_finds_tokens() {
    let toks = token_list("  12\t ab\u{3000}c  ");
    assert_eq!(toks, vec![chars("12"), chars("ab"), chars("c")]);
    assert!(token_list(" \t ").is_empty());
}

#[test]
fn trim_removes_outer_whitespace() {
    assert_eq!(trim_chars(&chars("  0x1f \r")), chars("0x1f"));
    assert_eq!(trim_chars(&chars(" \n ")), chars(""));
    assert_eq!(trim_chars(&chars("a b")), chars("a b"));
}
