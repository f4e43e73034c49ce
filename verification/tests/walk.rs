use fcheckd::walk::{recursive_dir_walk, DirChild, DirListing};

fn p(s: &str) -> Vec<u8> {
    s.as_bytes().to_vec()
}

fn dir(path: &str, listing: DirListing) -> DirChild {
    DirChild::Dir(p(path), listing)
}

fn empty() -> DirListing {
    DirListing::Entries(vec![])
}

fn sorted(mut v: Vec<Vec<u8>>) -> Vec<Vec<u8>> {
    v.sort();
    v
}

#[test]
fn empty_dir_returns_empty_vec() {
    let result = recursive_dir_walk(&p("/t"), &empty()).unwrap();
    assert!(result.is_empty());
}

#[test]
fn nonexistent_path_returns_none() {
    // reading "/jhlkasdghasdgfkjha/asdgikahsdgkljasdg/pqoruoiqwpro/oooooooo" fails
    let result = recursive_dir_walk(&p("/t"), &DirListing::Unreadable);
    assert!(result.is_none());
}

#[test]
fn finds_nested_subdirs() {
    // root/a/b and the file root/a/file
    let tree = DirListing::Entries(vec![dir(
        "/t/a",
        DirListing::Entries(vec![dir("/t/a/b", empty()), DirChild::NotDir(p("/t/a/file"))]),
    )]);
    let result = sorted(recursive_dir_walk(&p("/t"), &tree).unwrap());
    let expected = sorted(vec![p("/t/a"), p("/t/a/b")]);
    assert_eq!(result, expected);
}

#[test]
fn does_not_include_root_dir() {
    let tree = DirListing::Entries(vec![dir("/t/child", empty())]);
    let result = recursive_dir_walk(&p("/t"), &tree).unwrap();
    assert!(!result.contains(&p("/t")));
}

#[test]
fn siblings_and_multi_level_nesting_no_duplicates() {
    // root/a/b, root/a/c, root/d
    let tree = DirListing::Entries(vec![
        dir("/t/a", DirListing::Entries(vec![dir("/t/a/b", empty()), dir("/t/a/c", empty())])),
        dir("/t/d", empty()),
    ]);
    let mut result = recursive_dir_walk(&p("/t"), &tree).unwrap();
    let before_len = result.len();
    result.sort();
    result.dedup();
    let after_dedup_len = result.len();
    assert_eq!(before_len, after_dedup_len, "duplicates found: {:?}", result);

    let expected = sorted(vec![p("/t/a"), p("/t/a/b"), p("/t/a/c"), p("/t/d")]);
    assert_eq!(result, expected);
}

#[test]
fn three_levels_deep_all_recorded() {
    let tree = DirListing::Entries(vec![dir(
        "/t/a",
        DirListing::Entries(vec![dir("/t/a/b", DirListing::Entries(vec![dir("/t/a/b/c", empty())]))]),
    )]);
    let result = sorted(recursive_dir_walk(&p("/t"), &tree).unwrap());
    let expected = sorted(vec![p("/t/a"), p("/t/a/b"), p("/t/a/b/c")]);
    assert_eq!(result, expected);
}

#[test]
fn recursive_dir_walk_matches_what_init_inotify_actually_watches() {
    let tree = DirListing::Entries(vec![dir("/t/a", DirListing::Entries(vec![dir("/t/a/b", empty())]))]);
    let found = recursive_dir_walk(&p("/t"), &tree).unwrap();
    assert_eq!(found.len(), 2, "expected both a/ and a/b/ to be found");
}

#[test]
fn walk_lists_deepest_first() {
    let tree = DirListing::Entries(vec![
        dir("/t/a", DirListing::Entries(vec![dir("/t/a/b", DirListing::Entries(vec![dir("/t/a/b/c", empty())]))])),
        dir("/t/d", empty()),
    ]);
    let found = recursive_dir_walk(&p("/t"), &tree).unwrap();
    assert_eq!(found, vec![p("/t/a/b/c"), p("/t/a/b"), p("/t/a"), p("/t/d")]);
}

#[test]
fn walk_skips_unreadable_entries_and_keeps_unreadable_subdirs() {
    let tree = DirListing::Entries(vec![
        DirChild::Unreadable,
        DirChild::UnknownType(p("/t/x")),
        dir("/t/locked", DirListing::Unreadable),
        DirChild::NotDir(p("/t/file")),
    ]);
    let found = recursive_dir_walk(&p("/t"), &tree).unwrap();
    assert_eq!(found, vec![p("/t/locked")]);
}

#[test]
fn siblings_sharing_a_prefix_are_each_listed_once() {
    let tree = DirListing::Entries(vec![
        dir("/t/a", DirListing::Entries(vec![dir("/t/a/x", empty())])),
        dir("/t/ab", DirListing::Entries(vec![dir("/t/ab/x", empty())])),
    ]);
    let found = recursive_dir_walk(&p("/t"), &tree).unwrap();
    assert_eq!(found, vec![p("/t/a/x"), p("/t/a"), p("/t/ab/x"), p("/t/ab")]);
}
