//! Behavior of the truncation engine on concrete paths.

use trunclen::trunc::trunc_path;

fn tr(path: &[u8], limit: usize) -> Vec<u8> {
    trunc_path(&path.to_vec(), limit).unwrap()
}

#[test]
fn short_name_unchanged() {
    let p = b"docs/hello.txt".to_vec();
    assert_eq!(tr(&p, 140), p);
}

#[test]
fn exact_limit_unchanged() {
    let p = "a".repeat(140).into_bytes();
    assert_eq!(tr(&p, 140), p);
}

#[test]
fn no_name_components_unchanged() {
    for p in [
        b"/".to_vec(),
        b"".to_vec(),
        b"dir/".to_vec(),
        b".".to_vec(),
        b"..".to_vec(),
        b"a/..".to_vec(),
    ] {
        assert_eq!(tr(&p, 1), p);
    }
}

#[test]
fn ascii_boundary_with_ext() {
    let p = format!("{}.txt", "a".repeat(145)).into_bytes();
    let r = tr(&p, 140);
    let expected = format!("{}.txt", "a".repeat(136)).into_bytes();
    assert_eq!(r, expected);
    assert_eq!(r.len(), 140);
}

#[test]
fn long_ascii_no_dot() {
    let p = "x".repeat(200).into_bytes();
    let r = tr(&p, 140);
    assert_eq!(r, "x".repeat(140).into_bytes());
    assert!(!r.contains(&b'.'));
}

#[test]
fn multibyte_rounds_down() {
    // 47 three-byte characters: 141 bytes, so a naive cut at 140 would land
    // mid-character.
    let p = "\u{3042}".repeat(47).into_bytes();
    assert_eq!(p.len(), 141);
    let r = tr(&p, 140);
    let expected = "\u{3042}".repeat(46).into_bytes();
    assert_eq!(r, expected);
    assert_eq!(r.len(), 138);
    assert!(String::from_utf8(r).is_ok());
}

#[test]
fn extension_preserved_exact() {
    let p = format!("{}.conf", "s".repeat(150)).into_bytes();
    let r = tr(&p, 140);
    let expected = format!("{}.conf", "s".repeat(135)).into_bytes();
    assert_eq!(r, expected);
    assert_eq!(r.len(), 140);
    assert!(r.ends_with(b".conf"));
}

#[test]
fn idempotent_on_concrete_input() {
    let p = format!("{}.txt", "a".repeat(145)).into_bytes();
    let once = tr(&p, 140);
    let twice = tr(&once, 140);
    assert_eq!(twice, once);
}

#[test]
fn idempotent_no_extension() {
    let p = "\u{3042}".repeat(60).into_bytes();
    let once = tr(&p, 100);
    let twice = tr(&once, 100);
    assert_eq!(twice, once);
    assert_eq!(once.len(), 99);
}

#[test]
fn directory_part_untouched() {
    let p = format!("some/dir/{}.txt", "a".repeat(150)).into_bytes();
    let r = tr(&p, 140);
    let expected = format!("some/dir/{}.txt", "a".repeat(136)).into_bytes();
    assert_eq!(r, expected);
    assert!(r.starts_with(b"some/dir/"));
}

#[test]
fn invalid_name_cut_raw() {
    // Not valid UTF-8 anywhere: the cut is taken at the raw byte limit.
    let p = vec![0xFFu8; 150];
    let r = tr(&p, 140);
    assert_eq!(r, vec![0xFFu8; 140]);
}

#[test]
fn invalid_name_keeps_extension() {
    // An invalidly encoded stem still has its extension carried over.
    let mut p = vec![0xFFu8; 150];
    p.extend_from_slice(b".bin");
    let r = tr(&p, 140);
    let mut expected = vec![0xFFu8; 136];
    expected.extend_from_slice(b".bin");
    assert_eq!(r, expected);
}
