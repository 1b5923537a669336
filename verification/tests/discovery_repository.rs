use librbs_core::discovery::repository::{default_stdlib_root, GemRBS, Repository, Version};

#[test]
fn version_parses() {
    let v = Version::parse("1.2.3").unwrap();
    assert_eq!(v.segments, vec![1, 2, 3]);
    assert!(Version::parse("1.0.0.alpha").is_none());
    assert!(Version::parse("").is_none());
}

#[test]
fn version_orders() {
    let a = Version::parse("1.2").unwrap();
    let b = Version::parse("1.2.0").unwrap();
    assert_eq!(a.cmp(&b), std::cmp::Ordering::Equal);
    let c = Version::parse("1.10.0").unwrap();
    let d = Version::parse("1.2.0").unwrap();
    assert!(c > d);
}

#[test]
fn version_order_is_numeric_per_segment() {
    let a = Version::parse("0.9").unwrap();
    let b = Version::parse("0.10").unwrap();
    assert_eq!(a.cmp(&b), std::cmp::Ordering::Less);
    assert_eq!(b.cmp(&a), std::cmp::Ordering::Greater);
    assert!(Version::parse("1..2").is_none());
    assert!(Version::parse("a").is_none());
}

fn listing(names: &[&str]) -> Vec<String> {
    names.iter().map(|s| s.to_string()).collect()
}

#[test]
fn gem_versions_are_sorted_and_best_is_greatest_not_above() {
    let mut g = GemRBS::new("gem-a".to_string());
    g.add_path("/r/gem-a".to_string());
    assert!(!g.is_loaded());
    g.load_from(&vec![listing(&["1.0.0", "2.0.0", "1.5.0", "junk"])]);
    assert!(g.is_loaded());
    let vs: Vec<String> = g.versions().iter().map(|vp| vp.path.clone()).collect();
    assert_eq!(vs, vec!["/r/gem-a/1.0.0", "/r/gem-a/1.5.0", "/r/gem-a/2.0.0"]);
    assert_eq!(g.latest().unwrap().path, "/r/gem-a/2.0.0");
    let want = Version::parse("1.7").unwrap();
    assert_eq!(g.find_best(Some(&want)).unwrap().path, "/r/gem-a/1.5.0");
    let low = Version::parse("0.1").unwrap();
    assert_eq!(g.find_best(Some(&low)).unwrap().path, "/r/gem-a/1.0.0");
    assert_eq!(g.find_best(None).unwrap().path, "/r/gem-a/2.0.0");
}

#[test]
fn repository_lookup_uses_loaded_gems() {
    let mut repo = Repository::new();
    repo.add_listing("/r".to_string(), vec![("gem-a".to_string(), "/r/gem-a".to_string())]);
    assert!(!repo.gem_ready("gem-a"));
    assert!(repo.gem_ready("gem-b"));
    let dirs = repo.gem_dirs_of("gem-a").unwrap();
    assert_eq!(dirs, vec!["/r/gem-a".to_string()]);
    repo.load_gem("gem-a", &vec![listing(&["1.0.0", "3.0.0"])]);
    assert!(repo.gem_ready("gem-a"));
    assert_eq!(repo.lookup("gem-a", None), Some("/r/gem-a/3.0.0".to_string()));
    assert_eq!(repo.lookup("gem-a", Some("2.0")), Some("/r/gem-a/1.0.0".to_string()));
    assert_eq!(repo.lookup("gem-b", None), None);
}

#[test]
fn stdlib_root_is_under_vendor() {
    assert_eq!(default_stdlib_root("/v/rbs"), "/v/rbs/stdlib");
    assert_eq!(default_stdlib_root("/v/rbs/"), "/v/rbs/stdlib");
}

#[test]
fn version_segments_take_no_sign() {
    assert!(Version::parse("+1.2").is_none());
    assert!(Version::parse("1.+2").is_none());
}
