use uniqfiles::bytes::{bytes_eq, contains_bytes, lex_le_bytes};
use uniqfiles::digest::{fingerprint_chunks, Fingerprinter};
use uniqfiles::hex::hex_lower;
use uniqfiles::paths::{basename, is_under_dir, rel_to_dir};
use uniqfiles::walker::{walk_step, WalkAction, WalkEvent};

fn hex_digest(chunks: Vec<Vec<u8>>) -> String {
    String::from_utf8(hex_lower(&fingerprint_chunks(&chunks))).unwrap()
}

#[test]
fn digest_of_known_contents() {
    assert_eq!(hex_digest(vec![]), "d41d8cd98f00b204e9800998ecf8427e");
    assert_eq!(hex_digest(vec![b"x".to_vec()]), "9dd4e461268c8034f5c8564e155c67a6");
    assert_eq!(
        hex_digest(vec![b"abcdefghijklmnopqrstuvwxyz".to_vec()]),
        "c3fcd3d76192e4007dfb496cca67e13b"
    );
}

#[test]
fn digest_does_not_depend_on_chunking() {
    for size in [4095usize, 4096, 4097] {
        let content = vec![0xabu8; size];
        let whole = fingerprint_chunks(&vec![content.clone()]);
        let halves = fingerprint_chunks(&vec![
            content[..size / 2].to_vec(),
            content[size / 2..].to_vec(),
        ]);
        let mut tiny: Vec<Vec<u8>> = Vec::new();
        for chunk in content.chunks(1000) {
            tiny.push(chunk.to_vec());
        }
        let pieces = fingerprint_chunks(&tiny);
        assert_eq!(whole, halves);
        assert_eq!(whole, pieces);
    }
    assert_eq!(
        hex_digest(vec![vec![0xabu8; 4095]]),
        "42c95d25fbba0457fd65ae77725b0eab"
    );
}

#[test]
fn streaming_updates_concatenate() {
    let mut h = Fingerprinter::new();
    h.update(b"abcdefghijklm");
    h.update(b"");
    h.update(b"nopqrstuvwxyz");
    let digest = h.finish();
    assert_eq!(digest, fingerprint_chunks(&vec![b"abcdefghijklmnopqrstuvwxyz".to_vec()]));
    assert_eq!(digest.len(), 16);
}

#[test]
fn differing_bytes_give_differing_fingerprints() {
    let a = fingerprint_chunks(&vec![b"x".to_vec()]);
    let b = fingerprint_chunks(&vec![b"y".to_vec()]);
    assert_ne!(a, b);
}

#[test]
fn hex_encodes_each_byte_as_two_lowercase_digits() {
    assert_eq!(hex_lower(&vec![]), b"".to_vec());
    assert_eq!(hex_lower(&vec![0x00, 0x0f, 0xa5, 0xff]), b"000fa5ff".to_vec());
}

#[test]
fn byte_equality_and_order() {
    assert!(bytes_eq(&b"abc".to_vec(), &b"abc".to_vec()));
    assert!(!bytes_eq(&b"abc".to_vec(), &b"abd".to_vec()));
    assert!(!bytes_eq(&b"abc".to_vec(), &b"ab".to_vec()));
    assert!(lex_le_bytes(&b"".to_vec(), &b"a".to_vec()));
    assert!(lex_le_bytes(&b"a".to_vec(), &b"a".to_vec()));
    assert!(lex_le_bytes(&b"a".to_vec(), &b"ab".to_vec()));
    assert!(!lex_le_bytes(&b"ab".to_vec(), &b"a".to_vec()));
    assert!(lex_le_bytes(&b"abc".to_vec(), &b"abd".to_vec()));
    assert!(!lex_le_bytes(&b"b".to_vec(), &b"ab".to_vec()));
    assert!(contains_bytes(&vec![b"a".to_vec(), b"b".to_vec()], &b"b".to_vec()));
    assert!(!contains_bytes(&vec![b"a".to_vec(), b"b".to_vec()], &b"c".to_vec()));
}

#[test]
fn path_containment_is_component_aware() {
    assert!(is_under_dir(&b"/r/w/a.txt".to_vec(), &b"/r/w".to_vec()));
    assert!(is_under_dir(&b"/r/w".to_vec(), &b"/r/w".to_vec()));
    assert!(!is_under_dir(&b"/r/wo/a.txt".to_vec(), &b"/r/w".to_vec()));
    assert!(!is_under_dir(&b"/r/x/a.txt".to_vec(), &b"/r/w".to_vec()));
}

#[test]
fn relative_paths_and_base_names() {
    assert_eq!(rel_to_dir(&b"/r/w/sub/a.txt".to_vec(), &b"/r/w".to_vec()), b"sub/a.txt".to_vec());
    assert_eq!(rel_to_dir(&b"/r/w/a.txt".to_vec(), &b"/r".to_vec()), b"w/a.txt".to_vec());
    assert_eq!(basename(&b"/r/w/sub/a.txt".to_vec()), b"a.txt".to_vec());
    assert_eq!(basename(&b"a.txt".to_vec()), b"a.txt".to_vec());
    assert_eq!(basename(&b"".to_vec()), b"".to_vec());
}

#[test]
fn walk_decisions() {
    let skip = b"/r/w.uniq".to_vec();
    let file = WalkEvent::Entry { path: b"/r/w/a.txt".to_vec(), is_dir: false };
    assert_eq!(walk_step(&file, &skip), WalkAction::Emit);
    let dir = WalkEvent::Entry { path: b"/r/w".to_vec(), is_dir: true };
    assert_eq!(walk_step(&dir, &skip), WalkAction::Descend);
    let out = WalkEvent::Entry { path: b"/r/w.uniq".to_vec(), is_dir: true };
    assert_eq!(walk_step(&out, &skip), WalkAction::SkipDir);
    assert_eq!(walk_step(&WalkEvent::DirExhausted, &skip), WalkAction::Pop);
    assert_eq!(walk_step(&WalkEvent::ReadFailed, &skip), WalkAction::Abort);
}
