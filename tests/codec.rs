use zeno::codec::{decode, encode, DecodeError};
use zeno::profile::Profile;

fn profile(name: &str, theme_ref: &str) -> Profile {
    Profile::new(name.to_string(), theme_ref.to_string())
}

#[test]
fn empty_collection_encoding() {
    let bytes = encode(&[]);
    assert_eq!(bytes, vec![0x5A, 0x4E, 0x50, 0x31, 0, 0, 0, 0, 0, 0, 0, 0]);
    assert!(decode(&bytes).unwrap().is_empty());
}

#[test]
fn one_entry_encoding() {
    let bytes = encode(&[profile("ab", "é")]);
    let mut expected = vec![0x5A, 0x4E, 0x50, 0x31, 1, 0, 0, 0, 0, 0, 0, 0];
    expected.extend_from_slice(&[2, 0, 0, 0, 0, 0, 0, 0, b'a', b'b']);
    expected.extend_from_slice(&[2, 0, 0, 0, 0, 0, 0, 0, 0xC3, 0xA9]);
    assert_eq!(bytes, expected);
}

#[test]
fn encoding_is_deterministic() {
    let entries = vec![profile("work", "dark.toml"), profile("home", "light.toml")];
    assert_eq!(encode(&entries), encode(&entries.clone()));
}

#[test]
fn round_trip_keeps_entries_and_order() {
    let entries = vec![
        profile("work", "dark.toml"),
        profile("", ""),
        profile("ünïcødé ✓", "themes/ø.toml"),
        profile("home", "light.toml"),
    ];
    let decoded = decode(&encode(&entries)).unwrap();
    assert_eq!(decoded.len(), entries.len());
    for (a, b) in decoded.iter().zip(entries.iter()) {
        assert_eq!(a.name, b.name);
        assert_eq!(a.theme_ref, b.theme_ref);
    }
}

#[test]
fn invalid_utf8_is_malformed() {
    let mut bytes = encode(&[profile("ab", "t")]);
    bytes[20] = 0xFF;
    assert_eq!(decode(&bytes).unwrap_err(), DecodeError::Malformed);
}

#[test]
fn wrong_marker_is_malformed() {
    let mut bytes = encode(&[profile("a", "t")]);
    bytes[3] = b'2';
    assert_eq!(decode(&bytes).unwrap_err(), DecodeError::Malformed);
}

#[test]
fn trailing_bytes_are_malformed() {
    let mut bytes = encode(&[profile("a", "t")]);
    bytes.push(0);
    assert_eq!(decode(&bytes).unwrap_err(), DecodeError::Malformed);
}

#[test]
fn every_truncation_is_malformed() {
    let bytes = encode(&[profile("a", "t"), profile("bc", "u")]);
    for n in 0..bytes.len() {
        assert_eq!(decode(&bytes[..n]).unwrap_err(), DecodeError::Malformed);
    }
}

#[test]
fn huge_length_is_malformed() {
    let mut bytes = vec![0x5A, 0x4E, 0x50, 0x31, 1, 0, 0, 0, 0, 0, 0, 0];
    bytes.extend_from_slice(&[0xFF; 8]);
    bytes.extend_from_slice(b"abc");
    assert_eq!(decode(&bytes).unwrap_err(), DecodeError::Malformed);
    let mut count = vec![0x5A, 0x4E, 0x50, 0x31];
    count.extend_from_slice(&[0xFF; 8]);
    assert_eq!(decode(&count).unwrap_err(), DecodeError::Malformed);
}
