use closured::path::{parent, same_path, split_path, starts_with};
use closured::store::{add_listing, store_hash, StoreHash, StoreSet};

const A: &str = "aaaaaaaaaaaaaaaaaaaaaaaaaaaaaaaa";
const B: &str = "bbbbbbbbbbbbbbbbbbbbbbbbbbbbbbbb";
const C: &str = "cccccccccccccccccccccccccccccccc";

fn hash(s: &str) -> StoreHash {
    s.as_bytes().try_into().unwrap()
}

#[test]
fn hash_of_a_store_path() {
    assert_eq!(store_hash(&format!("/nix/store/{A}-hello-2.12")), Some(hash(A)));
    assert_eq!(store_hash(&format!("/nix/store/{A}")), Some(hash(A)));
    assert_eq!(store_hash(&format!("/nix/store/{A}-x/bin/sh")), Some(hash(A)));
}

#[test]
fn no_hash_of_other_paths() {
    assert_eq!(store_hash(""), None);
    assert_eq!(store_hash("/nix/store/"), None);
    assert_eq!(store_hash(&format!("/nix/store/{}", &A[1..])), None);
    assert_eq!(store_hash(&format!("/nix/stor3/{A}")), None);
    assert_eq!(store_hash(&format!(" /nix/store/{A}")), None);
    assert_eq!(store_hash(&format!("/usr/nix/store/{A}")), None);
}

#[test]
fn hash_may_cut_a_character() {
    let path = format!("/nix/store/{}\u{e9}-x", &A[1..]);
    let mut expected = [b'a'; 32];
    expected[31] = 0xc3;
    assert_eq!(store_hash(&path), Some(expected));
}

#[test]
fn set_operations() {
    let mut set = StoreSet::new();
    assert_eq!(set.len(), 0);
    assert!(set.insert(hash(B)));
    assert!(set.insert(hash(A)));
    assert!(!set.insert(hash(B)));
    assert_eq!(set.len(), 2);
    assert!(set.contains(&hash(A)));
    assert!(!set.contains(&hash(C)));

    let mut other = StoreSet::new();
    other.insert(hash(B));
    other.insert(hash(C));
    assert!(!set.is_subset(&other));
    assert_eq!(set.difference(&other), vec![hash(A)]);
    assert_eq!(other.difference(&set), vec![hash(C)]);

    let mut both = set.copy();
    both.extend(&other);
    assert_eq!(both.to_vec(), vec![hash(A), hash(B), hash(C)]);
    assert!(set.is_subset(&both) && other.is_subset(&both));
    assert!(both.remove(&hash(B)));
    assert!(!both.remove(&hash(B)));
    assert_eq!(both.to_vec(), vec![hash(A), hash(C)]);
    assert!(StoreSet::new().is_subset(&StoreSet::new()));
}

#[test]
fn set_of_many() {
    let mut set = StoreSet::new();
    for i in 0..1000u32 {
        let mut h = [0u8; 32];
        h[(i % 32) as usize] = (i * 7 % 256) as u8;
        h[31] ^= (i % 5) as u8;
        let known = set.contains(&h);
        assert_eq!(set.insert(h), !known);
        assert!(set.contains(&h));
    }
    let items = set.to_vec();
    assert_eq!(items.len(), set.len());
    assert!(items.windows(2).all(|w| w[0] < w[1]));
}

#[test]
fn listing_is_read_line_by_line() {
    let mut set = StoreSet::new();
    set.insert(hash(C));
    let listing = format!("/nix/store/{A}-x\r\n\n  \t/nix/store/{B}-y \u{2003}\nwarning: {C}");
    add_listing(&mut set, &listing);
    assert_eq!(set.to_vec(), vec![hash(A), hash(B), hash(C)]);
    add_listing(&mut set, "");
    assert_eq!(set.len(), 3);
}

#[test]
fn listing_with_a_path_in_the_middle_of_a_line() {
    let mut set = StoreSet::new();
    add_listing(&mut set, &format!("error: /nix/store/{A}-x\n"));
    assert_eq!(set.len(), 0);
}

#[test]
fn components_of_paths() {
    let pieces = |s: &str| -> Vec<String> {
        split_path(s.as_bytes()).into_iter().map(|p| String::from_utf8(p).unwrap()).collect()
    };
    assert_eq!(pieces("/nix//store/./x/"), vec!["/", "nix", "store", "x"]);
    assert_eq!(pieces("./a/../b"), vec![".", "a", "..", "b"]);
    assert_eq!(pieces("a/./b"), vec!["a", "b"]);
    assert_eq!(pieces("/"), vec!["/"]);
    assert_eq!(pieces("."), vec!["."]);
    assert!(pieces("").is_empty());
    assert_eq!(pieces(".x/..."), vec![".x", "..."]);
}

#[test]
fn paths_compare_as_std_does() {
    let samples = [
        "", ".", "/", "//", "/.", "./", "a", "a/", "./a", "/a", "/a/", "//a", "/a/.", "/a//b",
        "/a/b", "/a/./b", "/a/../b", "..", "../a", "/nix/store", "/nix/store/", "/nix/store/x",
        "/nix/storex", "/nix//store/./x", "nix/store",
    ];
    for a in samples {
        for b in samples {
            let (p, q) = (std::path::Path::new(a), std::path::Path::new(b));
            assert_eq!(same_path(a.as_bytes(), b.as_bytes()), p == q, "{a:?} {b:?}");
            assert_eq!(starts_with(a.as_bytes(), b.as_bytes()), p.starts_with(q), "{a:?} {b:?}");
        }
    }
}

#[test]
fn parents_are_those_of_std() {
    let samples = [
        "", ".", "/", "//", "/.", "./", "a", "a/", "./a", "/a", "/a/", "//a", "/a/.", "/a//b",
        "/a/b", "/a/./b", "/a/../b", "..", "../a", ".a/b", ".a", "a/b/./", "/./a", ".//a",
        "/run/current-system", "/nix/var/nix/profiles/system",
    ];
    for s in samples {
        let expected = std::path::Path::new(s).parent().map(|p| p.to_str().unwrap().as_bytes().to_vec());
        assert_eq!(parent(s.as_bytes()), expected, "{s:?}");
    }
}
