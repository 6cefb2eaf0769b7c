use emoji_smuggler::analyze_encoded;
use emoji_smuggler::byte_to_variation_selector;
use emoji_smuggler::decode;
use emoji_smuggler::encode;
use emoji_smuggler::variation_selector_to_byte;

#[test]
fn test_byte_to_variation_selector_low_range() {
    // Bytes 0-15 map to FE00-FE0F
    assert_eq!(byte_to_variation_selector(0), '\u{FE00}');
    assert_eq!(byte_to_variation_selector(15), '\u{FE0F}');
}

#[test]
fn test_byte_to_variation_selector_high_range() {
    // Bytes 16-255 map to E0100-E01EF
    assert_eq!(byte_to_variation_selector(16), '\u{E0100}');
    assert_eq!(byte_to_variation_selector(255), '\u{E01EF}');
}

#[test]
fn test_variation_selector_roundtrip() {
    // All 256 byte values round-trip correctly
    for byte in 0..=255u8 {
        let selector = byte_to_variation_selector(byte);
        let recovered = variation_selector_to_byte(selector);
        assert_eq!(recovered, Some(byte));
    }
}

#[test]
fn test_encode_hello() {
    let encoded = encode('🧁', &[0x68, 0x65, 0x6c, 0x6c, 0x6f]);

    // Visual representation looks like just an emoji
    assert!(encoded.starts_with('🧁'));

    // But contains 6 characters (emoji + 5 variation selectors)
    assert_eq!(encoded.chars().count(), 6);
}

#[test]
fn test_decode_hello() {
    let encoded = encode('🧁', b"hello");
    let decoded = decode(&encoded);
    assert_eq!(decoded, b"hello");
    assert_eq!(std::str::from_utf8(&decoded).unwrap(), "hello");
}

#[test]
fn test_roundtrip_binary_data() {
    let original: Vec<u8> = (0..=255).collect();
    let encoded = encode('🔒', &original);
    let decoded = decode(&encoded);
    assert_eq!(decoded, original);
}

#[test]
fn test_analyze_encoded() {
    let encoded = encode('😊', b"hello");
    let stats = analyze_encoded(&encoded);

    // 1 base char + 5 variation selectors = 6 chars
    assert_eq!(stats[0], 6);
    // 5 variation selectors
    assert_eq!(stats[1], 5);
    // Byte length is larger due to multibyte UTF-8 encoding
    assert!(stats[2] > 6);
}

#[test]
fn test_bijection_distinct_selectors() {
    // The 256 selector characters are pairwise distinct and all lie in
    // the two defined ranges.
    let mut seen = vec![false; 0x110000];
    for byte in 0..=255u8 {
        let u = byte_to_variation_selector(byte) as u32;
        let in_low = (0xFE00..=0xFE0F).contains(&u);
        let in_high = (0xE0100..=0xE01EF).contains(&u);
        assert!(in_low || in_high);
        assert!(!seen[u as usize]);
        seen[u as usize] = true;
    }
    // Every value of both ranges is hit: 16 + 240 = 256 in total.
    let low_hits = (0xFE00..=0xFE0F).filter(|&u| seen[u as usize]).count();
    let high_hits = (0xE0100..=0xE01EF).filter(|&u| seen[u as usize]).count();
    assert_eq!(low_hits, 16);
    assert_eq!(high_hits, 240);
}

#[test]
fn test_byte_0x68_maps_to_exact_scalar() {
    // 0xE0100 + (0x68 - 16) = 0xE0158
    assert_eq!(byte_to_variation_selector(0x68), '\u{E0158}');
    assert_eq!(variation_selector_to_byte('\u{E0158}'), Some(0x68));
}

#[test]
fn test_non_selector_characters_give_none() {
    assert_eq!(variation_selector_to_byte('A'), None);
    assert_eq!(variation_selector_to_byte('🧁'), None);
    // Just outside each range boundary
    assert_eq!(variation_selector_to_byte('\u{FDFF}'), None);
    assert_eq!(variation_selector_to_byte('\u{FE10}'), None);
    assert_eq!(variation_selector_to_byte('\u{E00FF}'), None);
    assert_eq!(variation_selector_to_byte('\u{E01F0}'), None);
}

#[test]
fn test_encode_empty_payload() {
    let encoded = encode('🧁', &[]);
    assert_eq!(encoded.chars().count(), 1);
    assert!(encoded.starts_with('🧁'));
    assert_eq!(decode(&encoded), Vec::<u8>::new());
}

#[test]
fn test_roundtrip_various_payloads() {
    let cases: Vec<Vec<u8>> = vec![
        vec![],
        vec![0],
        vec![15],
        vec![16],
        vec![255],
        vec![0, 15, 16, 255],
        b"hello world".to_vec(),
    ];
    for payload in cases {
        let encoded = encode('A', &payload);
        assert_eq!(decode(&encoded), payload);
        let stats = analyze_encoded(&encoded);
        assert_eq!(stats[0], payload.len() + 1);
        assert_eq!(stats[1], payload.len());
    }
}

#[test]
fn test_selector_base_is_extracted_too() {
    // A base inside a selector range carries a byte of its own, so
    // decoding then yields one extra leading byte.
    let encoded = encode('\u{FE00}', &[42]);
    assert_eq!(decode(&encoded), vec![0, 42]);
    let stats = analyze_encoded(&encoded);
    assert_eq!(stats[1], 2);
}

#[test]
fn test_decode_plain_text_is_empty() {
    // Text with no selector characters decodes to nothing.
    let text = "just ordinary text, no hidden data!";
    assert_eq!(decode(text), Vec::<u8>::new());
    let stats = analyze_encoded(text);
    assert_eq!(stats[0], text.chars().count());
    assert_eq!(stats[1], 0);
    assert_eq!(stats[2], text.len());
}

#[test]
fn test_decode_unanchored_extraction() {
    // Selectors are extracted from anywhere in the input, in order,
    // even interleaved with ordinary text or several base characters.
    let mut mixed = String::new();
    mixed.push_str("ab");
    mixed.push(byte_to_variation_selector(1));
    mixed.push('x');
    mixed.push(byte_to_variation_selector(200));
    let second = encode('🔒', &[7]);
    mixed.push_str(&second);
    assert_eq!(decode(&mixed), vec![1, 200, 7]);
}

#[test]
fn test_analyze_empty_input() {
    let stats = analyze_encoded("");
    assert_eq!(stats, vec![0, 0, 0]);
}

#[test]
fn test_analyze_storage_length() {
    // ASCII chars take one 8-bit unit, selectors take three or four:
    // 'A' (1) + U+FE00 (3) + U+E0100 (4) = 8.
    let encoded = encode('A', &[0, 16]);
    let stats = analyze_encoded(&encoded);
    assert_eq!(stats[0], 3);
    assert_eq!(stats[1], 2);
    assert_eq!(stats[2], 8);
    assert_eq!(stats[2], encoded.len());
}
