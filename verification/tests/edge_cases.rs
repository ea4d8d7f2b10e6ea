//! Edge cases: budget underflow, hidden names, repeated suffixes, tiny
//! limits, and cuts that land inside a multi-byte stem.

use trunclen::trunc::trunc_path;

fn tr(path: &[u8], limit: usize) -> Vec<u8> {
    trunc_path(&path.to_vec(), limit).unwrap()
}

#[test]
fn extension_longer_than_limit_survives() {
    // The stem saturates to nothing, and the result exceeds the limit:
    // extensions are never destroyed to satisfy it.
    let p = format!("abc.{}", "e".repeat(150)).into_bytes();
    let r = tr(&p, 10);
    let expected = format!(".{}", "e".repeat(150)).into_bytes();
    assert_eq!(r, expected);
    assert_eq!(r.len(), 151);
}

#[test]
fn hidden_name_has_no_extension() {
    // A leading dot marks a hidden name, not an extension: plain cut.
    let p = format!(".{}", "a".repeat(150)).into_bytes();
    let r = tr(&p, 140);
    let expected = format!(".{}", "a".repeat(139)).into_bytes();
    assert_eq!(r, expected);
    assert_eq!(r.len(), 140);
}

#[test]
fn only_last_suffix_preserved() {
    let p = format!("{}.tar.gz", "x".repeat(150)).into_bytes();
    let r = tr(&p, 140);
    let expected = format!("{}.gz", "x".repeat(137)).into_bytes();
    assert_eq!(r, expected);
    assert_eq!(r.len(), 140);
}

#[test]
fn empty_extension_kept() {
    let p = format!("{}.", "y".repeat(150)).into_bytes();
    let r = tr(&p, 140);
    let expected = format!("{}.", "y".repeat(139)).into_bytes();
    assert_eq!(r, expected);
    assert_eq!(r.len(), 140);
}

#[test]
fn tiny_limit() {
    let p = b"ab".to_vec();
    assert_eq!(tr(&p, 1), b"a".to_vec());
}

#[test]
fn multibyte_stem_snaps_within_budget() {
    // The extension's space is reserved first, and the stem cut snaps to a
    // character boundary within what remains: 136 bytes of budget keep 45
    // whole three-byte characters.
    let mut p = "\u{3042}".repeat(50).into_bytes();
    p.extend_from_slice(b".txt");
    assert_eq!(p.len(), 154);
    let r = tr(&p, 140);
    let expected = format!("{}.txt", "\u{3042}".repeat(45)).into_bytes();
    assert_eq!(r, expected);
    assert_eq!(r.len(), 139);
    assert!(String::from_utf8(r).is_ok());
}

#[test]
fn stem_boundary_respected_with_extension() {
    // A tight budget never leaves a split character before the extension.
    let mut p = "\u{3042}".repeat(2).into_bytes();
    p.extend_from_slice(b".txt");
    assert_eq!(p.len(), 10);
    let r = tr(&p, 8);
    let expected = format!("{}.txt", "\u{3042}").into_bytes();
    assert_eq!(r, expected);
    assert_eq!(r.len(), 7);
}

#[test]
fn directory_never_touched() {
    // Reserving the extension's space cuts the stem toward empty; it never
    // reaches into the parent directory.
    let p = b"ddd/a.bc".to_vec();
    let r = tr(&p, 1);
    assert_eq!(r, b"ddd/.bc".to_vec());
}

#[test]
fn four_byte_characters_round_down() {
    // 2-byte-aligned cut inside a stream of 4-byte characters.
    let p = "\u{1F600}".repeat(40).into_bytes();
    assert_eq!(p.len(), 160);
    let r = tr(&p, 150);
    let expected = "\u{1F600}".repeat(37).into_bytes();
    assert_eq!(r, expected);
    assert_eq!(r.len(), 148);
}

#[test]
fn two_byte_characters_round_down() {
    let p = "\u{00E9}".repeat(80).into_bytes();
    assert_eq!(p.len(), 160);
    let r = tr(&p, 141);
    let expected = "\u{00E9}".repeat(70).into_bytes();
    assert_eq!(r, expected);
    assert_eq!(r.len(), 140);
}
