use dircompare::paths::{bytes_eq, path_eq, relative_key, render_path};

fn comps(s: &str) -> Vec<Vec<u8>> {
    s.split('/').map(|c| c.as_bytes().to_vec()).collect()
}

#[test]
fn strips_root_components() {
    let key = relative_key(&comps("data/left/sub/b.txt"), &comps("data/left")).unwrap();
    assert_eq!(key, comps("sub/b.txt"));
    assert_eq!(render_path(&key), b"sub/b.txt".to_vec());
}

#[test]
fn root_matches_whole_components_only() {
    assert_eq!(relative_key(&comps("a/bc/x"), &comps("a/b")), None);
    assert_eq!(relative_key(&comps("a"), &comps("a/b")), None);
}

#[test]
fn path_equal_to_root_has_empty_key() {
    let key = relative_key(&comps("a/b"), &comps("a/b")).unwrap();
    assert!(key.is_empty());
    assert!(render_path(&key).is_empty());
}

#[test]
fn byte_and_path_equality() {
    assert!(bytes_eq(&b"abc".to_vec(), &b"abc".to_vec()));
    assert!(!bytes_eq(&b"abc".to_vec(), &b"abd".to_vec()));
    assert!(!bytes_eq(&b"ab".to_vec(), &b"abc".to_vec()));
    assert!(path_eq(&comps("x/y"), &comps("x/y")));
    assert!(!path_eq(&comps("x/y"), &comps("x/z")));
    assert!(!path_eq(&comps("x"), &comps("x/y")));
}
