use librbs_core::discovery::repository::Repository;
use librbs_core::discovery::{
    classify_entry, dedup_tagged, keep_walked_file, merge_discovered, sort_paths, sort_paths_by_components,
    EntryAction, Loader, SourceTag,
};
use librbs_core::error::Error;

fn strings(v: &[&str]) -> Vec<String> {
    v.iter().map(|s| s.to_string()).collect()
}

#[test]
fn only_rbs_files_are_kept() {
    assert_eq!(classify_entry("a.rbs", false, true, true), EntryAction::Keep);
    assert_eq!(classify_entry("b.rb", false, true, true), EntryAction::Skip);
    assert_eq!(classify_entry("d.txt", false, true, true), EntryAction::Skip);
    assert_eq!(classify_entry("nested", true, false, true), EntryAction::Descend);
}

#[test]
fn underscore_dirs_are_skipped_only_when_hiding() {
    assert_eq!(classify_entry("_priv", true, false, true), EntryAction::Skip);
    assert_eq!(classify_entry("_priv", true, false, false), EntryAction::Descend);
    // an underscore file is still a signature file
    assert_eq!(classify_entry("_top.rbs", false, true, true), EntryAction::Keep);
}

#[test]
fn dot_entries_are_skipped_regardless_of_hiding() {
    for skip_hidden in [true, false] {
        assert_eq!(classify_entry(".foo.rbs", false, true, skip_hidden), EntryAction::Skip);
        assert_eq!(classify_entry(".git", true, false, skip_hidden), EntryAction::Skip);
        assert_eq!(classify_entry("ok.rbs", false, true, skip_hidden), EntryAction::Keep);
    }
}

#[test]
fn walked_file_filter_checks_extension_and_hidden_dirs() {
    assert!(keep_walked_file("inner.rbs", &strings(&["pub"]), true));
    assert!(!keep_walked_file("inner.rbs", &strings(&["_priv"]), true));
    assert!(keep_walked_file("inner.rbs", &strings(&["_priv"]), false));
    assert!(!keep_walked_file("d.txt", &strings(&[]), false));
    assert!(!keep_walked_file(".rbs", &strings(&[]), false));
    assert!(keep_walked_file("_under.rbs", &strings(&["pub"]), true));
}

#[test]
fn paths_sort_by_text() {
    let sorted = sort_paths(strings(&["/r/c.rbs", "/r/b/x.rbs", "/r/a.rbs"]));
    assert_eq!(sorted, strings(&["/r/a.rbs", "/r/b/x.rbs", "/r/c.rbs"]));
}

#[test]
fn paths_sort_by_components_differs_from_text_order() {
    // '-' sorts before '/' as text, but "a" is a prefix component of "a-b".
    let by_text = sort_paths(strings(&["/r/a-b/x.rbs", "/r/a/y.rbs"]));
    assert_eq!(by_text, strings(&["/r/a-b/x.rbs", "/r/a/y.rbs"]));
    let by_components = sort_paths_by_components(strings(&["/r/a-b/x.rbs", "/r/a/y.rbs"]));
    assert_eq!(by_components, strings(&["/r/a/y.rbs", "/r/a-b/x.rbs"]));
}

#[test]
fn merge_keeps_first_occurrence_order() {
    let merged = merge_discovered(vec![
        Ok(strings(&["/d/a.rbs", "/d/b.rbs"])),
        Ok(strings(&["/d/b.rbs", "/d/a.rbs", "/e/c.rbs"])),
    ]);
    assert_eq!(merged, Ok(strings(&["/d/a.rbs", "/d/b.rbs", "/e/c.rbs"])));
}

#[test]
fn merge_reports_first_failure() {
    let merged = merge_discovered(vec![
        Ok(strings(&["/d/a.rbs"])),
        Err(Error::Io { path: "/x".to_string(), message: "denied".to_string() }),
        Err(Error::Io { path: "/y".to_string(), message: "denied".to_string() }),
    ]);
    assert_eq!(merged, Err(Error::Io { path: "/x".to_string(), message: "denied".to_string() }));
}

#[test]
fn tagged_files_are_deduplicated_by_path() {
    let out = dedup_tagged(vec![
        (SourceTag::Core, strings(&["/core/a.rbs", "/core/b.rbs"])),
        (SourceTag::Dir("/core".to_string()), strings(&["/core/a.rbs", "/core/c.rbs"])),
    ]);
    let paths: Vec<String> = out.iter().map(|(_, p)| p.clone()).collect();
    assert_eq!(paths, strings(&["/core/a.rbs", "/core/b.rbs", "/core/c.rbs"]));
    assert!(matches!(out[0].0, SourceTag::Core));
    assert!(matches!(out[2].0, SourceTag::Dir(_)));
}

#[test]
fn loader_lists_core_then_libraries_then_dirs() {
    let mut repo = Repository::new();
    repo.add_listing("/r".to_string(), vec![("gem-a".to_string(), "/r/gem-a".to_string())]);
    repo.load_gem("gem-a", &vec![strings(&["1.0.0", "2.0.0"])]);
    let mut loader = Loader::with_core_root("/core".to_string());
    loader.repository = repo;
    loader.add_library("gem-a".to_string(), Some("1.5".to_string()));
    loader.add_dir("sig".to_string());
    let dirs = loader.resolve_dirs().unwrap();
    let paths: Vec<String> = dirs.iter().map(|(_, p)| p.clone()).collect();
    assert_eq!(paths, strings(&["/core", "/r/gem-a/1.0.0", "sig"]));
    assert!(matches!(dirs[0].0, SourceTag::Core));
    assert!(matches!(&dirs[1].0, SourceTag::Library { name, version } if name == "gem-a" && version.as_deref() == Some("1.5")));
    assert!(matches!(&dirs[2].0, SourceTag::Dir(d) if d == "sig"));
}

#[test]
fn loader_reports_unknown_library() {
    let mut loader = Loader::new();
    loader.add_library("missing".to_string(), None);
    assert!(matches!(loader.resolve_dirs(), Err(Error::UnknownLibrary { name }) if name == "missing"));
}
