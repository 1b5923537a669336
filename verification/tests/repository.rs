use librbs_core::repository::{RepositoryIndex, Version};

#[test]
fn version_parses_and_compares() {
    let v1 = Version::parse_release("1.0").unwrap();
    let v2 = Version::parse_release("1.0.0").unwrap();
    let v3 = Version::parse_release("1.0.1").unwrap();
    assert_eq!(v1, v2);
    assert!(v1 < v3);
    assert!(v3 > v2);
}

#[test]
fn parse_release_rejects_prerelease() {
    assert!(Version::parse_release("1.0.0.pre").is_none());
    assert!(Version::parse_release("1.0.0a").is_none());
    assert!(Version::parse_release("1.0.0-alpha").is_none());
}

#[test]
fn parse_request_strips_prerelease_tail() {
    let v = Version::parse_request("1.0.0.pre1").unwrap();
    assert_eq!(v, Version::parse_release("1.0.0").unwrap());
}

/// A repository root holding the given gem -> version directories, as
/// the index sees it: the gem directories, then each gem's listing.
fn index_for(root: &str, gems: &[(&str, &[&str])]) -> (RepositoryIndex, Vec<(String, Vec<String>)>) {
    let mut idx = RepositoryIndex::new();
    let entries: Vec<(String, String)> =
        gems.iter().map(|(g, _)| (g.to_string(), format!("{}/{}", root, g))).collect();
    idx.add_listing(entries);
    let listings = gems
        .iter()
        .map(|(g, vs)| (g.to_string(), vs.iter().map(|v| v.to_string()).collect()))
        .collect();
    (idx, listings)
}

fn load(idx: &mut RepositoryIndex, listings: &[(String, Vec<String>)], gem: &str) {
    if let Some(dirs) = idx.gem_dirs_of(gem) {
        let per_dir: Vec<Vec<String>> = dirs
            .iter()
            .map(|_| listings.iter().find(|(g, _)| g == gem).map(|(_, v)| v.clone()).unwrap_or_default())
            .collect();
        if !idx.gem_ready(gem) {
            idx.load_gem(gem, &per_dir);
        }
    }
}

#[test]
fn lookup_latest_when_no_version_requested() {
    let (mut idx, l) = index_for("/r", &[("gem-a", &["1.0.0", "2.0.0", "1.5.0"])]);
    load(&mut idx, &l, "gem-a");
    assert_eq!(idx.lookup("gem-a", None), Some("/r/gem-a/2.0.0".to_string()));
}

#[test]
fn lookup_best_le_for_specific_version() {
    let (mut idx, l) = index_for("/r", &[("gem-a", &["1.0.0", "1.1.0", "2.0.0"])]);
    load(&mut idx, &l, "gem-a");
    assert_eq!(idx.lookup("gem-a", Some("1.0.5")), Some("/r/gem-a/1.0.0".to_string()));
    assert_eq!(idx.lookup("gem-a", Some("1.1.0")), Some("/r/gem-a/1.1.0".to_string()));
    assert_eq!(idx.lookup("gem-a", Some("1.5.0")), Some("/r/gem-a/1.1.0".to_string()));
    assert_eq!(idx.lookup("gem-a", Some("3.0.0")), Some("/r/gem-a/2.0.0".to_string()));
}

#[test]
fn lookup_falls_back_to_smallest_when_request_below_all() {
    let (mut idx, l) = index_for("/r", &[("gem-a", &["2.0.0", "3.0.0"])]);
    load(&mut idx, &l, "gem-a");
    assert_eq!(idx.lookup("gem-a", Some("1.0.0")), Some("/r/gem-a/2.0.0".to_string()));
}

#[test]
fn prerelease_version_dirs_are_skipped() {
    let (mut idx, l) = index_for("/r", &[("gem-a", &["1.0.0", "2.0.0.pre", "not-a-version"])]);
    load(&mut idx, &l, "gem-a");
    assert_eq!(idx.lookup("gem-a", None), Some("/r/gem-a/1.0.0".to_string()));
}

#[test]
fn unknown_gem_returns_none() {
    let (mut idx, l) = index_for("/r", &[("gem-a", &["1.0.0"])]);
    load(&mut idx, &l, "gem-b");
    assert_eq!(idx.lookup("gem-b", None), None);
}

#[test]
fn missing_repo_root_is_ignored() {
    let mut idx = RepositoryIndex::new();
    idx.add_listing(Vec::new());
    assert_eq!(idx.gem_dirs_of("gem-a"), None);
    assert_eq!(idx.lookup("gem-a", None), None);
}

#[test]
fn later_dir_overrides_earlier_for_same_version() {
    let mut idx = RepositoryIndex::new();
    idx.add_listing(vec![("gem-a".to_string(), "/t1/gem-a".to_string())]);
    idx.add_listing(vec![("gem-a".to_string(), "/t2/gem-a".to_string())]);
    let dirs = idx.gem_dirs_of("gem-a").unwrap();
    assert_eq!(dirs, vec!["/t1/gem-a".to_string(), "/t2/gem-a".to_string()]);
    idx.load_gem("gem-a", &vec![vec!["1.0.0".to_string()], vec!["1.0.0".to_string()]]);
    assert_eq!(idx.lookup("gem-a", None), Some("/t2/gem-a/1.0.0".to_string()));
}

#[test]
fn equal_versions_compare_equal_after_trailing_zeros() {
    let a = Version::parse_release("2").unwrap();
    let b = Version::parse_release("2.0.0.0").unwrap();
    assert_eq!(a, b);
    assert_eq!(a.cmp(&b), std::cmp::Ordering::Equal);
    assert!(Version::parse_release("").is_none());
    assert!(Version::parse_release("1..0").is_none());
    assert!(Version::parse_request("pre").is_none());
    assert_eq!(Version::parse_request("3.pre.4").unwrap(), Version::parse_release("3").unwrap());
}

#[test]
fn lookup_with_unparsable_request_is_none() {
    let (mut idx, l) = index_for("/r", &[("gem-a", &["1.0.0"])]);
    load(&mut idx, &l, "gem-a");
    assert_eq!(idx.lookup("gem-a", Some("alpha")), None);
}

#[test]
fn gem_without_versions_has_no_lookup() {
    let (mut idx, l) = index_for("/r", &[("gem-a", &["junk"])]);
    load(&mut idx, &l, "gem-a");
    assert_eq!(idx.lookup("gem-a", None), None);
}

#[test]
fn components_take_no_sign() {
    assert!(Version::parse_release("+1.0").is_none());
    assert!(Version::parse_release("1.+0").is_none());
    assert!(Version::parse_request("+1").is_none());
    assert_eq!(Version::parse_request("1.+2").unwrap(), Version::parse_release("1").unwrap());
}
