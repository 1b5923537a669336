use librbs_core::env::resolution::{Resolution, ResolvedRef};
use librbs_core::env::DeclRef;
use librbs_core::interner::TypeNameSym;

fn dr(source_index: u32, decl_index: u32) -> DeclRef {
    DeclRef { source_index, decl_index }
}

#[test]
fn record_appends_in_call_order() {
    let mut r = Resolution::new();
    r.record(dr(0, 0), ResolvedRef::Resolved(TypeNameSym(1)));
    r.record(dr(0, 0), ResolvedRef::Unresolved(TypeNameSym(2)));
    let slice = r.get(dr(0, 0)).unwrap();
    assert_eq!(slice.len(), 2);
    assert_eq!(slice[0], ResolvedRef::Resolved(TypeNameSym(1)));
    assert_eq!(slice[1], ResolvedRef::Unresolved(TypeNameSym(2)));
}

#[test]
fn get_returns_none_for_unrecorded_decl_ref() {
    let mut r = Resolution::new();
    r.record(dr(0, 0), ResolvedRef::Resolved(TypeNameSym(1)));
    assert!(r.get(dr(0, 1)).is_none());
    assert!(r.get(dr(1, 0)).is_none());
}

#[test]
fn len_sums_across_decls() {
    let mut r = Resolution::new();
    r.record(dr(0, 0), ResolvedRef::Resolved(TypeNameSym(1)));
    r.record(dr(0, 1), ResolvedRef::Resolved(TypeNameSym(2)));
    r.record(dr(0, 1), ResolvedRef::Resolved(TypeNameSym(3)));
    assert_eq!(r.len(), 3);
    assert!(!r.is_empty());
}

#[test]
fn empty_resolution_is_empty_and_zero_len() {
    let r = Resolution::new();
    assert!(r.is_empty());
    assert_eq!(r.len(), 0);
}

#[test]
fn iter_lists_each_decl_once() {
    let mut r = Resolution::new();
    r.record(dr(1, 4), ResolvedRef::Resolved(TypeNameSym(7)));
    r.record(dr(0, 2), ResolvedRef::Unresolved(TypeNameSym(8)));
    r.record(dr(1, 4), ResolvedRef::Resolved(TypeNameSym(9)));
    let mut all = r.iter();
    all.sort_by_key(|(d, _)| (d.source_index, d.decl_index));
    assert_eq!(all.len(), 2);
    assert_eq!(all[0].0, dr(0, 2));
    assert_eq!(all[0].1, vec![ResolvedRef::Unresolved(TypeNameSym(8))]);
    assert_eq!(all[1].0, dr(1, 4));
    assert_eq!(all[1].1, vec![ResolvedRef::Resolved(TypeNameSym(7)), ResolvedRef::Resolved(TypeNameSym(9))]);
}
