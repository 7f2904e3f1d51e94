use oldirs::paths::common_prefix_between;
use oldirs::paths::dirname;
use oldirs::paths::parent_of;
use oldirs::spans::PrefixSpanSplitter;

#[test]
fn test_common_prefix_between() {
    assert_eq!(&common_prefix_between("", "bubba"), "");
    assert_eq!(&common_prefix_between("bubba", "bubba"), "bubba");
    assert_eq!(&common_prefix_between("bub/bles", "bub"), "bub");
    assert_eq!(&common_prefix_between("bub", "bub/bles"), "bub");
    assert_eq!(&common_prefix_between("hello", "bubbles"), "");
    assert_eq!(&common_prefix_between("bub/bles", "bub/blez"), "bub");
    assert_eq!(
        &common_prefix_between("bub/bles/sushi", "bub/bles/sashimi"),
        "bub/bles"
    );
}

#[test]
fn test_common_prefix_symmetry_examples() {
    let pairs = [
        ("a/b/c", "a/b/d"),
        ("", "x/y"),
        ("p/q", "p"),
        ("alpha", "beta"),
        ("same/path", "same/path"),
    ];
    for (x, y) in pairs {
        assert_eq!(common_prefix_between(x, y), common_prefix_between(y, x));
    }
}

#[test]
fn test_common_prefix_self_and_empty() {
    for x in ["", "a", "a/b", "deep/er/path"] {
        assert_eq!(common_prefix_between(x, x), x);
        assert_eq!(&common_prefix_between("", x), "");
    }
}

#[test]
fn test_dirname_and_parent_of() {
    assert_eq!(&dirname("a/b/c"), "a/b");
    assert_eq!(&dirname("a"), "a");
    assert_eq!(&dirname("a/b"), "a");
    assert_eq!(&dirname(""), "");
    assert_eq!(&dirname("/x"), "");
    assert_eq!(parent_of("a/b/c"), "a/b");
    assert_eq!(parent_of("noslash"), "noslash");
    assert_eq!(parent_of("/x"), "");
}

#[test]
fn test_span_splitter_detects_boundaries() {
    let mut splitter = PrefixSpanSplitter::new();
    assert_eq!(splitter.push("bub/bles/sushi"), None);
    assert_eq!(splitter.push("bub/bles/sashimi"), None);
    assert_eq!(splitter.push("bub/tub"), None);
    assert_eq!(splitter.push("other/file"), Some("bub".to_string()));
    assert_eq!(splitter.push("other/thing"), None);
    assert_eq!(splitter.finish(), Some("other".to_string()));
    assert_eq!(splitter.finish(), None);
}

#[test]
fn test_span_splitter_single_run() {
    let mut splitter = PrefixSpanSplitter::new();
    assert_eq!(splitter.push("d/one"), None);
    assert_eq!(splitter.push("d/two"), None);
    assert_eq!(splitter.finish(), Some("d".to_string()));
}
