use dirpack::filter::{is_excluded_path, is_ignored_segment, DECODE_OUTPUT, ENCODE_OUTPUT};

#[test]
fn ignored_segments() {
    for name in [".git", "Cargo.lock", "target", "node_modules", "out.out", "output"] {
        assert!(is_ignored_segment(name.as_bytes()));
    }
    for name in ["", ".", "src", "targets", ".gitignore", "Output", "out"] {
        assert!(!is_ignored_segment(name.as_bytes()));
    }
    assert!(is_ignored_segment(ENCODE_OUTPUT.as_bytes()));
    assert!(is_ignored_segment(DECODE_OUTPUT.as_bytes()));
}

#[test]
fn excluded_paths() {
    for p in ["./.git/config", "target", "./a/node_modules", "a/target/b", "./out.out", "./output/x", "/Cargo.lock"] {
        assert!(is_excluded_path(p.as_bytes()), "{}", p);
    }
    for p in ["", "./src/lib.rs", "./my.git/x", "./targets", "./a/b_target", "./output.txt", "//"] {
        assert!(!is_excluded_path(p.as_bytes()), "{}", p);
    }
}
