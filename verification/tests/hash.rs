use stark_fri::hash::hash;
use stark_fri::hash::hash_pair;

fn hex(bytes: &[u8]) -> String {
    let mut out = String::new();
    for b in bytes {
        out.push_str(&format!("{:02x}", b));
    }
    out
}

#[test]
fn hash_of_empty_input() {
    assert_eq!(
        hex(&hash(&[])),
        "e3b0c44298fc1c149afbf4c8996fb92427ae41e4649b934ca495991b7852b855"
    );
}

#[test]
fn hash_of_abc() {
    assert_eq!(
        hex(&hash(b"abc")),
        "ba7816bf8f01cfea414140de5dae2223b00361a396177a9cb410ff61f20015ad"
    );
}

#[test]
fn hash_pair_is_hash_of_concatenation() {
    assert_eq!(hash_pair(b"a", b"bc"), hash(b"abc"));
    assert_ne!(hash_pair(b"a", b"bc"), hash_pair(b"bc", b"a"));
}
