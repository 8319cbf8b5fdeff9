use sector_updater::fstree::{
    apply_actions, get_file, install_navdata, merge_into, prefixed, subtree, tree_actions,
    tree_contains, FsTree,
};
use sector_updater::archive::ExtractAction;

fn strings(v: &[&str]) -> Vec<String> {
    v.iter().map(|s| s.to_string()).collect()
}

#[test]
fn merge_leaves_files_absent_from_source_untouched() {
    let mut dest = FsTree::new();
    dest.put_file(strings(&["keep.txt"]), b"keep me".to_vec());
    let mut src = FsTree::new();
    src.put_file(strings(&["new.txt"]), b"new".to_vec());
    merge_into(&mut dest, &src);
    assert_eq!(get_file(&dest, &strings(&["keep.txt"])), Some(&b"keep me".to_vec()));
    assert_eq!(get_file(&dest, &strings(&["new.txt"])), Some(&b"new".to_vec()));
}

#[test]
fn merge_overwrites_same_named_files() {
    let mut dest = FsTree::new();
    dest.put_file(strings(&["same.txt"]), b"old contents".to_vec());
    let mut src = FsTree::new();
    src.put_file(strings(&["same.txt"]), b"new contents".to_vec());
    merge_into(&mut dest, &src);
    assert_eq!(get_file(&dest, &strings(&["same.txt"])), Some(&b"new contents".to_vec()));
}

#[test]
fn merge_makes_directories_without_replacing() {
    let mut dest = FsTree::new();
    dest.put_dir(strings(&["sub"]));
    dest.put_file(strings(&["sub", "old.txt"]), b"old".to_vec());
    let mut src = FsTree::new();
    src.put_dir(strings(&["sub"]));
    src.put_file(strings(&["sub", "added.txt"]), b"added".to_vec());
    merge_into(&mut dest, &src);
    assert!(tree_contains(&dest, &strings(&["sub"])));
    assert_eq!(get_file(&dest, &strings(&["sub", "old.txt"])), Some(&b"old".to_vec()));
    assert_eq!(get_file(&dest, &strings(&["sub", "added.txt"])), Some(&b"added".to_vec()));
}

#[test]
fn apply_actions_writes_files_and_ancestors() {
    let mut tree = FsTree::new();
    let acts = vec![
        ExtractAction::MakeDir { path: strings(&["dir"]) },
        ExtractAction::WriteFile { path: strings(&["dir", "deep", "a.txt"]), data: b"a".to_vec() },
    ];
    apply_actions(&mut tree, &acts);
    assert!(tree_contains(&tree, &strings(&["dir"])));
    assert!(tree_contains(&tree, &strings(&["dir", "deep"])));
    assert_eq!(get_file(&tree, &strings(&["dir", "deep", "a.txt"])), Some(&b"a".to_vec()));
    assert!(!tree_contains(&tree, &strings(&["elsewhere"])));
}

#[test]
fn apply_actions_overwrites_at_same_path() {
    let mut tree = FsTree::new();
    tree.put_file(strings(&["a.txt"]), b"old".to_vec());
    let acts = vec![ExtractAction::WriteFile { path: strings(&["a.txt"]), data: b"new".to_vec() }];
    apply_actions(&mut tree, &acts);
    assert_eq!(get_file(&tree, &strings(&["a.txt"])), Some(&b"new".to_vec()));
}

#[test]
fn subtree_strips_the_prefix_and_drops_the_rest() {
    let mut t = FsTree::new();
    t.put_file(strings(&["top.sct"]), b"sector".to_vec());
    t.put_dir(strings(&["nav"]));
    t.put_file(strings(&["nav", "wpt.txt"]), b"waypoints".to_vec());
    let sub = subtree(&t, &strings(&["nav"]));
    assert_eq!(get_file(&sub, &strings(&["wpt.txt"])), Some(&b"waypoints".to_vec()));
    assert!(!tree_contains(&sub, &strings(&["top.sct"])));
    assert!(!tree_contains(&sub, &strings(&["nav"])));
}

#[test]
fn prefixed_puts_every_entry_under_the_prefix() {
    let mut t = FsTree::new();
    t.put_file(strings(&["wpt.txt"]), b"waypoints".to_vec());
    let p = prefixed(&t, &strings(&["NavData"]));
    assert_eq!(get_file(&p, &strings(&["NavData", "wpt.txt"])), Some(&b"waypoints".to_vec()));
    assert!(!tree_contains(&p, &strings(&["wpt.txt"])));
}

#[test]
fn tree_actions_write_the_tree_out_in_order() {
    let mut src = FsTree::new();
    src.put_dir(strings(&["sub"]));
    src.put_file(strings(&["sub", "a.txt"]), b"a".to_vec());
    let acts = tree_actions(&src);
    assert_eq!(acts.len(), 2);
    match &acts[0] {
        ExtractAction::MakeDir { path } => assert_eq!(*path, strings(&["sub"])),
        _ => panic!("expected a directory action"),
    }
    match &acts[1] {
        ExtractAction::WriteFile { path, data } => {
            assert_eq!(*path, strings(&["sub", "a.txt"]));
            assert_eq!(data, b"a");
        },
        _ => panic!("expected a file action"),
    }
}

#[test]
fn applying_tree_actions_merges_rather_than_mirrors() {
    let mut dest = FsTree::new();
    dest.put_file(strings(&["keep.txt"]), b"keep me".to_vec());
    dest.put_file(strings(&["same.txt"]), b"old contents".to_vec());
    let mut src = FsTree::new();
    src.put_file(strings(&["same.txt"]), b"new contents".to_vec());
    src.put_file(strings(&["deep", "new.txt"]), b"new".to_vec());
    apply_actions(&mut dest, &tree_actions(&src));
    assert_eq!(get_file(&dest, &strings(&["keep.txt"])), Some(&b"keep me".to_vec()));
    assert_eq!(get_file(&dest, &strings(&["same.txt"])), Some(&b"new contents".to_vec()));
    assert_eq!(get_file(&dest, &strings(&["deep", "new.txt"])), Some(&b"new".to_vec()));
    assert!(tree_contains(&dest, &strings(&["deep"])));
}

#[test]
fn navdata_lands_under_the_fixed_folder() {
    let mut extracted = FsTree::new();
    extracted.put_file(strings(&["top.sct"]), b"sector".to_vec());
    extracted.put_file(strings(&["nav", "wpt.txt"]), b"waypoints".to_vec());
    let mut install = FsTree::new();
    install.put_file(strings(&["NavData", "old.txt"]), b"old".to_vec());
    install_navdata(&mut install, &extracted, &strings(&["nav"]));
    assert_eq!(
        get_file(&install, &strings(&["NavData", "wpt.txt"])),
        Some(&b"waypoints".to_vec())
    );
    assert_eq!(get_file(&install, &strings(&["NavData", "old.txt"])), Some(&b"old".to_vec()));
    assert!(!tree_contains(&install, &strings(&["top.sct"])));
}
