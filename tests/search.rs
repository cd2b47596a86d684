use minikeccak::permutations::Permutations;
use minikeccak::search::{find_preimage, is_preimage};
use minikeccak::sponge::hash;

const CHARS: &[u8] =
    b"qwertyuiopasdfghjklzxcvbnmQWERTYUIOPASDFGHJKLZXCVBNM1234567890!@#%^-_=+([{<)]}>";

fn reversed_alphabet() -> Vec<u8> {
    let mut chars = CHARS.to_vec();
    chars.reverse();
    chars
}

fn collect(alphabet: &[u8], length: usize) -> Vec<Vec<u8>> {
    let mut p = Permutations::new(alphabet.to_vec(), length);
    let mut out = Vec::new();
    while let Some(t) = p.next() {
        out.push(t);
    }
    out
}

#[test]
fn enumerates_in_mixed_radix_order() {
    let all = collect(b"abc", 2);
    let expected: Vec<Vec<u8>> = vec![
        b"aa".to_vec(),
        b"ba".to_vec(),
        b"ca".to_vec(),
        b"ab".to_vec(),
        b"bb".to_vec(),
        b"cb".to_vec(),
        b"ac".to_vec(),
        b"bc".to_vec(),
        b"cc".to_vec(),
    ];
    assert_eq!(all, expected);
}

#[test]
fn enumerates_n_to_the_l_distinct_tuples() {
    let all = collect(b"wxyz", 3);
    assert_eq!(all.len(), 64);
    let mut sorted = all.clone();
    sorted.sort();
    sorted.dedup();
    assert_eq!(sorted.len(), 64);
}

#[test]
fn empty_alphabet_yields_nothing() {
    assert!(collect(b"", 1).is_empty());
    assert!(collect(b"", 4).is_empty());
}

#[test]
fn zero_length_yields_one_empty_tuple() {
    assert_eq!(collect(b"ab", 0), vec![Vec::<u8>::new()]);
}

#[test]
fn exhausted_enumerator_stays_exhausted() {
    let mut p = Permutations::new(b"a".to_vec(), 2);
    assert_eq!(p.next(), Some(b"aa".to_vec()));
    assert_eq!(p.next(), None);
    assert_eq!(p.next(), None);
}

#[test]
fn finds_two_symbol_fixture() {
    let target: [u8; 16] = [
        0xCF, 0xEA, 0xCD, 0xDA, 0xA7, 0xB4, 0x9B, 0xC7, 0x43, 0x5C, 0x25, 0x64, 0x10, 0xDF, 0x11,
        0xED,
    ];
    let found = find_preimage(reversed_alphabet(), 2, target).expect("a preimage exists");
    assert_eq!(found.len(), 2);
    assert!(found.iter().all(|c| CHARS.contains(c)));
    assert_eq!(hash(found), target);
}

#[test]
fn finds_digest_of_any_candidate() {
    let target = hash(b"x7".to_vec());
    let found = find_preimage(reversed_alphabet(), 2, target).expect("a preimage exists");
    assert_eq!(hash(found), target);
}

#[test]
fn search_reports_absence() {
    let target = hash(b"c".to_vec());
    assert_eq!(find_preimage(b"ab".to_vec(), 1, target), None);
}

#[test]
fn preimage_check() {
    let target = hash(b"AbCxYz".to_vec());
    assert!(is_preimage(&b"AbCxYz".to_vec(), &target));
    assert!(!is_preimage(&b"AbCxYy".to_vec(), &target));
}
