use short_url::codec::{cache_key, decode, encode, encode_fingerprint, symbol_position};
use short_url::error::Error;
use short_url::partition::{collection_name, partition_of, Partition};

const ALPHABET: &str = "ABCDEFGHIJKLMNOPQRSTUVWXYZabcdefghijklmnopqrstuvwxyz0123456789+/";

#[test]
fn encode_rejects_empty_url() {
    assert_eq!(encode(""), Err(Error::ParamsError));
}

#[test]
fn encode_fingerprint_of_zero() {
    assert_eq!(encode_fingerprint(0), "AAAAAA");
}

#[test]
fn encode_fingerprint_of_all_ones() {
    assert_eq!(encode_fingerprint(0xFFFF_FFFF), "/////w");
}

#[test]
fn encode_fingerprint_is_big_endian() {
    assert_eq!(encode_fingerprint(0x0102_0304), "AQIDBA");
    assert_eq!(encode_fingerprint(0x0403_0201), "BAMCAQ");
}

#[test]
fn encode_hashes_the_url() {
    let url = "https://example.com/a";
    let code = encode(url).unwrap();
    assert_eq!(code, encode_fingerprint(fasthash::city::hash32(url)));
    assert_eq!(code.chars().count(), 6);
    assert!(code.chars().all(|c| ALPHABET.contains(c)));
    assert_ne!(code, encode_fingerprint(0));
}

#[test]
fn encode_is_deterministic() {
    let a = encode("https://example.com/a").unwrap();
    let b = encode("https://example.com/a").unwrap();
    assert_eq!(a, b);
}

#[test]
fn issued_code_ends_in_padding() {
    for h in [0u32, 1, 2, 3, 0xdead_beef, 0x1234_5678, u32::MAX] {
        let code = encode_fingerprint(h);
        let last = code.chars().last().unwrap();
        assert_eq!(symbol_position(last).unwrap() % 16, 0);
        let d = decode(&code).unwrap();
        assert_eq!(d.sequence, 0);
        assert_eq!(d.canonical, code);
    }
}

#[test]
fn symbol_positions() {
    assert_eq!(symbol_position('A'), Some(0));
    assert_eq!(symbol_position('a'), Some(26));
    assert_eq!(symbol_position('0'), Some(52));
    assert_eq!(symbol_position('+'), Some(62));
    assert_eq!(symbol_position('/'), Some(63));
    assert_eq!(symbol_position('='), None);
    assert_eq!(symbol_position('-'), None);
}

#[test]
fn decode_splits_ordinal_from_code() {
    let d = decode("Ab3xQ3").unwrap();
    assert_eq!(d.sequence, 7);
    assert_eq!(d.canonical, "Ab3xQw");
    let d = decode("Ab3xQR").unwrap();
    assert_eq!(d.sequence, 1);
    assert_eq!(d.canonical, "Ab3xQQ");
    let d = decode("Ab3xQ/").unwrap();
    assert_eq!(d.sequence, 15);
    assert_eq!(d.canonical, "Ab3xQw");
}

#[test]
fn decode_every_ordinal() {
    for pos in 0..64usize {
        let last = ALPHABET.chars().nth(pos).unwrap();
        let presented = format!("xyzab{}", last);
        let d = decode(&presented).unwrap();
        assert_eq!(d.sequence as usize, pos & 15);
        let base = ALPHABET.chars().nth(pos & 48).unwrap();
        assert_eq!(d.canonical, format!("xyzab{}", base));
    }
}

#[test]
fn decode_rejects_empty_code() {
    assert!(matches!(decode(""), Err(Error::ParamsError)));
}

#[test]
fn decode_rejects_symbol_outside_alphabet() {
    assert!(matches!(decode("Ab3xQ="), Err(Error::ParamsError)));
    assert!(matches!(decode("Ab3xQé"), Err(Error::ParamsError)));
}

#[test]
fn cache_keys() {
    assert_eq!(cache_key("Ab3xQw", 0), "Ab3xQw:0");
    assert_eq!(cache_key("Ab3xQw", 9), "Ab3xQw:9");
    assert_eq!(cache_key("Ab3xQw", 10), "Ab3xQw:10");
    assert_eq!(cache_key("Ab3xQw", 15), "Ab3xQw:15");
}

#[test]
fn partition_by_first_character() {
    assert_eq!(partition_of("Ab3xQw"), Partition::Upper);
    assert_eq!(partition_of("Zzzzzz"), Partition::Upper);
    assert_eq!(partition_of("ab3xQw"), Partition::Lower);
    assert_eq!(partition_of("zAAAAA"), Partition::Lower);
    assert_eq!(partition_of("0b3xQw"), Partition::Digit);
    assert_eq!(partition_of("9"), Partition::Digit);
    assert_eq!(partition_of("+abc"), Partition::Digit);
    assert_eq!(partition_of("/ABC"), Partition::Digit);
}

#[test]
fn partition_ignores_the_rest_of_the_code() {
    assert_eq!(partition_of("Qaaaaa"), partition_of("Q+/019"));
    assert_eq!(partition_of("q"), partition_of("qZZZZZ"));
    assert_eq!(partition_of("7abc"), partition_of("+ABC"));
    assert_eq!(partition_of("Ab3xQw"), partition_of("Ab3xQw"));
}

#[test]
fn collection_names() {
    assert_eq!(collection_name("Ab3xQw"), "upper");
    assert_eq!(collection_name("ab3xQw"), "lower");
    assert_eq!(collection_name("3b3xQw"), "digit");
    assert_eq!(collection_name("+"), "digit");
    assert_eq!(Partition::Upper.name(), "upper");
    assert_eq!(Partition::Lower.name(), "lower");
    assert_eq!(Partition::Digit.name(), "digit");
}
