//! Finding the signature files to load: which directory entries count,
//! the order files come in, and merging what several roots yielded.
//!
//! A root that is a file yields itself; a directory is walked: entries
//! whose name starts with `.` are never entered or kept, `_`-prefixed
//! directories are left out when hiding is asked for, and files ending
//! in `.rbs` are kept. Each root's files are sorted by path; across roots
//! the first occurrence of a path wins.
use vstd::hash_set::StringHashSet;
use vstd::prelude::*;

use crate::discovery::repository::Repository;
use crate::error::Error;
use crate::text::chars_of;

pub mod repository;

verus! {

/// A root to search for signature files.
#[derive(Debug, Clone)]
pub struct DirSpec {
    pub path: String,
    pub skip_hidden: bool,
}

/// What to do with one directory entry met while walking a root.
#[derive(Debug, Clone, Copy, PartialEq, Eq, Structural)]
pub enum EntryAction {
    Skip,
    Descend,
    Keep,
}

/// `s` ends with `suffix`.
pub open spec fn ends_with(s: Seq<char>, suffix: Seq<char>) -> bool {
    suffix.len() <= s.len() && s.subrange(s.len() - suffix.len(), s.len() as int) == suffix
}

/// The entry rule: a `.`-prefixed name is skipped; a directory is entered
/// unless hiding is on and its name starts with `_`; a file is kept when
/// its name ends in `.rbs`; anything else is skipped.
pub open spec fn entry_action(name: Seq<char>, is_dir: bool, is_file: bool, skip_hidden: bool) -> EntryAction {
    if name.len() > 0 && name[0] == '.' {
        EntryAction::Skip
    } else if is_dir {
        if skip_hidden && name.len() > 0 && name[0] == '_' {
            EntryAction::Skip
        } else {
            EntryAction::Descend
        }
    } else if is_file && ends_with(name, seq!['.', 'r', 'b', 's']) {
        EntryAction::Keep
    } else {
        EntryAction::Skip
    }
}

/// Decide what to do with a directory entry named `name`.
pub fn classify_entry(name: &str, is_dir: bool, is_file: bool, skip_hidden: bool) -> (a: EntryAction)
    ensures
        a == entry_action(name@, is_dir, is_file, skip_hidden),
{
    let c = chars_of(name);
    let n = c.len();
    if n > 0 && c[0] == '.' {
        return EntryAction::Skip;
    }
    if is_dir {
        if skip_hidden && n > 0 && c[0] == '_' {
            return EntryAction::Skip;
        }
        return EntryAction::Descend;
    }
    if is_file && n >= 4 && c[n - 4] == '.' && c[n - 3] == 'r' && c[n - 2] == 'b' && c[n - 1] == 's' {
        proof {
            assert(c@.subrange(n - 4, n as int) =~= seq!['.', 'r', 'b', 's']);
        }
        return EntryAction::Keep;
    }
    proof {
        if is_file && ends_with(name@, seq!['.', 'r', 'b', 's']) {
            assert(c@.subrange(n - 4, n as int)[0] == '.');
            assert(c@.subrange(n - 4, n as int)[1] == 'r');
            assert(c@.subrange(n - 4, n as int)[2] == 'b');
            assert(c@.subrange(n - 4, n as int)[3] == 's');
        }
    }
    EntryAction::Skip
}

/// Lexicographic order on texts by character, a proper prefix first:
/// the order of path strings.
pub open spec fn text_less(a: Seq<char>, b: Seq<char>) -> bool
    decreases a.len(),
{
    if a.len() == 0 {
        b.len() > 0
    } else if b.len() == 0 {
        false
    } else if a[0] != b[0] {
        a[0] < b[0]
    } else {
        text_less(a.drop_first(), b.drop_first())
    }
}

pub proof fn lemma_text_less_irreflexive(a: Seq<char>)
    ensures
        !text_less(a, a),
    decreases a.len(),
{
    if a.len() > 0 {
        lemma_text_less_irreflexive(a.drop_first());
    }
}

pub proof fn lemma_text_less_total(a: Seq<char>, b: Seq<char>)
    ensures
        a == b || text_less(a, b) || text_less(b, a),
        !(text_less(a, b) && text_less(b, a)),
    decreases a.len(),
{
    if a.len() > 0 && b.len() > 0 {
        lemma_text_less_total(a.drop_first(), b.drop_first());
        if a[0] == b[0] && a.drop_first() == b.drop_first() {
            assert(a =~= seq![a[0]] + a.drop_first());
            assert(b =~= seq![b[0]] + b.drop_first());
        }
    } else if a.len() == 0 && b.len() == 0 {
        assert(a =~= b);
    }
}

pub proof fn lemma_text_less_transitive(a: Seq<char>, b: Seq<char>, c: Seq<char>)
    requires
        text_less(a, b),
        text_less(b, c),
    ensures
        text_less(a, c),
    decreases a.len(),
{
    if a.len() > 0 && b.len() > 0 && c.len() > 0 && a[0] == b[0] && b[0] == c[0] {
        lemma_text_less_transitive(a.drop_first(), b.drop_first(), c.drop_first());
    }
}

/// Whether `a` sorts before `b`.
fn text_before(a: &Vec<char>, b: &Vec<char>) -> (r: bool)
    ensures
        r == text_less(a@, b@),
{
    let mut i: usize = 0;
    proof {
        assert(a@.skip(0) =~= a@);
        assert(b@.skip(0) =~= b@);
    }
    while i < a.len() && i < b.len() && a[i] == b[i]
        invariant
            i <= a@.len(),
            i <= b@.len(),
            text_less(a@, b@) == text_less(a@.skip(i as int), b@.skip(i as int)),
        decreases a@.len() - i,
    {
        proof {
            assert(a@.skip(i as int).drop_first() =~= a@.skip(i + 1));
            assert(b@.skip(i as int).drop_first() =~= b@.skip(i + 1));
        }
        i = i + 1;
    }
    if i == a.len() {
        i < b.len()
    } else if i == b.len() {
        false
    } else {
        proof {
            assert(a@.skip(i as int)[0] == a@[i as int]);
            assert(b@.skip(i as int)[0] == b@[i as int]);
        }
        a[i] < b[i]
    }
}

/// Texts of a list of strings.
pub open spec fn path_texts_of(v: Seq<String>) -> Seq<Seq<char>> {
    v.map_values(|s: String| s@)
}

/// The text a path is ordered by: the path itself, or, ordering by
/// components, the path with each `/` read as the least character (so a
/// component sorts before any longer one it is a prefix of).
pub open spec fn order_key(t: Seq<char>, by_components: bool) -> Seq<char> {
    if by_components {
        t.map_values(|c: char| if c == '/' { '\0' } else { c })
    } else {
        t
    }
}

/// `s` is in path order.
pub open spec fn sorted_by(s: Seq<Seq<char>>, by_components: bool) -> bool {
    forall|i: int, j: int| 0 <= i < j < s.len() ==> !text_less(order_key(#[trigger] s[j], by_components), order_key(#[trigger] s[i], by_components))
}

/// `s` is in path-string order.
pub open spec fn sorted_paths(s: Seq<Seq<char>>) -> bool {
    sorted_by(s, false)
}

fn key_of(p: &String, by_components: bool) -> (k: Vec<char>)
    ensures
        k@ == order_key(p@, by_components),
{
    let mut c = chars_of(p.as_str());
    if by_components {
        let mut i: usize = 0;
        let ghost orig = c@;
        while i < c.len()
            invariant
                c@.len() == orig.len(),
                i <= c@.len(),
                orig == p@,
                forall|j: int| 0 <= j < i ==> c@[j] == (if orig[j] == '/' { '\0' } else { orig[j] }),
                forall|j: int| i <= j < c@.len() ==> c@[j] == orig[j],
            decreases c@.len() - i,
        {
            if c[i] == '/' {
                c.set(i, '\0');
            }
            i = i + 1;
        }
        proof {
            assert(c@ =~= order_key(p@, by_components));
        }
    }
    c
}

fn sort_with(paths: Vec<String>, by_components: bool) -> (r: Vec<String>)
    ensures
        sorted_by(path_texts_of(r@), by_components),
        path_texts_of(r@).to_multiset() == path_texts_of(paths@).to_multiset(),
{
    broadcast use vstd::seq_lib::group_to_multiset_ensures;

    let mut out: Vec<String> = Vec::new();
    let mut keys: Vec<Vec<char>> = Vec::new();
    let mut i: usize = 0;
    proof {
        assert(path_texts_of(paths@).take(0) =~= Seq::<Seq<char>>::empty());
        assert(path_texts_of(out@) =~= Seq::<Seq<char>>::empty());
    }
    while i < paths.len()
        invariant
            i <= paths@.len(),
            keys@.len() == out@.len(),
            forall|k: int| 0 <= k < keys@.len() ==> #[trigger] keys@[k]@ == order_key(out@[k]@, by_components),
            sorted_by(path_texts_of(out@), by_components),
            path_texts_of(out@).to_multiset() == path_texts_of(paths@).take(i as int).to_multiset(),
        decreases paths.len() - i,
    {
        let p = paths[i].clone();
        let key = key_of(&p, by_components);
        let mut pos: usize = 0;
        while pos < keys.len() && !text_before(&key, &keys[pos])
            invariant
                pos <= keys@.len(),
                keys@.len() == out@.len(),
                forall|k: int| 0 <= k < keys@.len() ==> #[trigger] keys@[k]@ == order_key(out@[k]@, by_components),
                forall|k: int| 0 <= k < pos ==> !text_less(key@, order_key(#[trigger] out@[k]@, by_components)),
            decreases keys@.len() - pos,
        {
            pos = pos + 1;
        }
        let ghost before = path_texts_of(out@);
        proof {
            assert(p@ == paths@[i as int]@);
            assert(path_texts_of(paths@).take(i + 1) =~= path_texts_of(paths@).take(i as int).push(p@));
            vstd::seq_lib::to_multiset_insert(before, pos as int, p@);
            vstd::seq_lib::to_multiset_build(path_texts_of(paths@).take(i as int), p@);
        }
        out.insert(pos, p);
        keys.insert(pos, key);
        proof {
            assert(path_texts_of(out@) =~= before.insert(pos as int, p@));
            assert forall|k: int| 0 <= k < keys@.len() implies #[trigger] keys@[k]@ == order_key(out@[k]@, by_components) by {}
            let s = path_texts_of(out@);
            assert forall|a: int, b: int| 0 <= a < b < s.len() implies !text_less(order_key(#[trigger] s[b], by_components), order_key(#[trigger] s[a], by_components)) by {
                if a < pos && b == pos {
                    lemma_text_less_total(key@, order_key(before[a], by_components));
                } else if a == pos && b > pos {
                    if b - 1 > pos {
                        if text_less(order_key(before[b - 1], by_components), key@) {
                            lemma_text_less_transitive(order_key(before[b - 1], by_components), key@, order_key(before[pos as int], by_components));
                        }
                    } else {
                        if pos < before.len() {
                            lemma_text_less_total(key@, order_key(before[pos as int], by_components));
                        }
                    }
                } else if a < pos && b > pos {
                    assert(s[a] == before[a]);
                    assert(s[b] == before[b - 1]);
                } else if a > pos {
                    assert(s[a] == before[a - 1]);
                    assert(s[b] == before[b - 1]);
                }
            }
        }
        i = i + 1;
    }
    proof {
        assert(path_texts_of(paths@).take(paths@.len() as int) =~= path_texts_of(paths@));
    }
    out
}

/// Sort paths by their text (a root's files come out in this order).
pub fn sort_paths(paths: Vec<String>) -> (r: Vec<String>)
    ensures
        sorted_paths(path_texts_of(r@)),
        path_texts_of(r@).to_multiset() == path_texts_of(paths@).to_multiset(),
{
    sort_with(paths, false)
}

/// Sort paths component by component (the order of `PathBuf`s).
pub fn sort_paths_by_components(paths: Vec<String>) -> (r: Vec<String>)
    ensures
        sorted_by(path_texts_of(r@), true),
        path_texts_of(r@).to_multiset() == path_texts_of(paths@).to_multiset(),
{
    sort_with(paths, true)
}

/// A file name whose extension is `rbs` (`x.rbs`; not `.rbs` itself).
pub open spec fn rbs_extension(name: Seq<char>) -> bool {
    name.len() > 4 && ends_with(name, seq!['.', 'r', 'b', 's'])
}

/// Some directory of `dirs` has a name starting with `_`.
pub open spec fn hidden_dirs(dirs: Seq<Seq<char>>) -> bool {
    exists|i: int| 0 <= i < dirs.len() && (#[trigger] dirs[i]).len() > 0 && dirs[i][0] == '_'
}

/// A directory starting with `_` hides what lies under it at any depth:
/// one such directory anywhere between the root and a file hides the
/// file, whatever the other directories are.
pub proof fn lemma_hidden_at_any_depth(above: Seq<Seq<char>>, dir: Seq<char>, below: Seq<Seq<char>>)
    requires
        dir.len() > 0,
        dir[0] == '_',
    ensures
        hidden_dirs(above.push(dir) + below),
{
    let dirs = above.push(dir) + below;
    assert(dirs[above.len() as int] == dir);
}

/// Whether a walked file named `name`, under the directories `dirs`
/// between the root and it, is a signature file to load.
pub fn keep_walked_file(name: &str, dirs: &Vec<String>, skip_hidden: bool) -> (b: bool)
    ensures
        b == (rbs_extension(name@) && !(skip_hidden && hidden_dirs(path_texts_of(dirs@)))),
        skip_hidden && (exists|i: int| 0 <= i < dirs@.len() && (#[trigger] dirs@[i])@.len() > 0 && dirs@[i]@[0] == '_')
            ==> !b,
{
    let c = chars_of(name);
    let n = c.len();
    let ext = n > 4 && c[n - 4] == '.' && c[n - 3] == 'r' && c[n - 2] == 'b' && c[n - 1] == 's';
    proof {
        if ext {
            assert(c@.subrange(n - 4, n as int) =~= seq!['.', 'r', 'b', 's']);
        } else if rbs_extension(name@) {
            assert(c@.subrange(n - 4, n as int)[0] == '.');
            assert(c@.subrange(n - 4, n as int)[1] == 'r');
            assert(c@.subrange(n - 4, n as int)[2] == 'b');
            assert(c@.subrange(n - 4, n as int)[3] == 's');
        }
    }
    if !ext {
        return false;
    }
    if !skip_hidden {
        return true;
    }
    let mut i: usize = 0;
    while i < dirs.len()
        invariant
            skip_hidden,
            rbs_extension(name@),
            i <= dirs@.len(),
            forall|j: int| 0 <= j < i ==> !((#[trigger] path_texts_of(dirs@)[j]).len() > 0 && path_texts_of(dirs@)[j][0] == '_'),
        decreases dirs.len() - i,
    {
        let d = chars_of(dirs[i].as_str());
        if d.len() > 0 && d[0] == '_' {
            proof {
                assert(path_texts_of(dirs@)[i as int] == d@);
                assert(hidden_dirs(path_texts_of(dirs@)));
            }
            return false;
        }
        proof {
            assert(path_texts_of(dirs@)[i as int] == d@);
        }
        i = i + 1;
    }
    proof {
        assert forall|j: int| 0 <= j < dirs@.len() implies !((#[trigger] dirs@[j])@.len() > 0 && dirs@[j]@[0] == '_') by {
            assert(path_texts_of(dirs@)[j] == dirs@[j]@);
        }
    }
    true
}

/// `s` with every element after its first occurrence dropped.
pub open spec fn first_occurrences(s: Seq<Seq<char>>) -> Seq<Seq<char>>
    decreases s.len(),
{
    if s.len() == 0 {
        Seq::empty()
    } else {
        let init = first_occurrences(s.drop_last());
        if s.drop_last().contains(s.last()) {
            init
        } else {
            init.push(s.last())
        }
    }
}

proof fn lemma_first_occurrences_contains(s: Seq<Seq<char>>)
    ensures
        first_occurrences(s).to_set() == s.to_set(),
    decreases s.len(),
{
    if s.len() > 0 {
        lemma_first_occurrences_contains(s.drop_last());
        s.drop_last().lemma_push_to_set_commute(s.last());
        assert(s.drop_last().push(s.last()) =~= s);
        first_occurrences(s.drop_last()).lemma_push_to_set_commute(s.last());
        if s.drop_last().contains(s.last()) {
            assert(s.drop_last().to_set().insert(s.last()) =~= s.drop_last().to_set());
        }
    } else {
        assert(first_occurrences(s).to_set() =~= s.to_set());
    }
}

/// Every root's files, in root order.
pub open spec fn all_found(results: Seq<Result<Vec<String>, Error>>) -> Seq<Seq<char>>
    decreases results.len(),
{
    if results.len() == 0 {
        Seq::empty()
    } else {
        all_found(results.drop_last()) + match results.last() {
            Ok(v) => path_texts_of(v@),
            Err(_) => Seq::empty(),
        }
    }
}

/// The first failure among the roots' results, if any.
pub open spec fn first_failure(results: Seq<Result<Vec<String>, Error>>) -> Option<Error>
    decreases results.len(),
{
    if results.len() == 0 {
        None
    } else {
        match first_failure(results.drop_last()) {
            Some(e) => Some(e),
            None => match results.last() {
                Ok(_) => None,
                Err(e) => Some(e),
            },
        }
    }
}

/// Merge what each root yielded, in root order: the first failure if
/// any root failed, else every path once, at its first occurrence.
pub fn merge_discovered(results: Vec<Result<Vec<String>, Error>>) -> (r: Result<Vec<String>, Error>)
    ensures
        match first_failure(results@) {
            Some(e) => r matches Err(x) && same_error(x, e),
            None => r matches Ok(v) && path_texts_of(v@) == first_occurrences(all_found(results@)),
        },
{
    let ghost orig = results@;
    let mut seen = StringHashSet::new();
    let mut out: Vec<String> = Vec::new();
    let mut i: usize = 0;
    proof {
        assert(results@.take(0) =~= Seq::<Result<Vec<String>, Error>>::empty());
        assert(path_texts_of(out@) =~= Seq::<Seq<char>>::empty());
    }
    while i < results.len()
        invariant
            results@ == orig,
            i <= results@.len(),
            first_failure(results@.take(i as int)) is None,
            path_texts_of(out@) == first_occurrences(all_found(results@.take(i as int))),
            seen@ == all_found(results@.take(i as int)).to_set(),
        decreases results.len() - i,
    {
        proof {
            assert(results@.take(i + 1).drop_last() =~= results@.take(i as int));
        }
        match &results[i] {
            Err(e) => {
                proof {
                    assert(orig.take(i + 1).last() == orig[i as int]);
                    assert(first_failure(orig.take(i + 1)) == Some(*e));
                    lemma_failure_sticky(orig, i + 1);
                }
                return Err(e.clone_error());
            },
            Ok(paths) => {
                let ghost base = all_found(results@.take(i as int));
                let mut j: usize = 0;
                proof {
                    assert(path_texts_of(paths@).take(0) =~= Seq::<Seq<char>>::empty());
                    assert(base + path_texts_of(paths@).take(0) =~= base);
                }
                while j < paths.len()
                    invariant
                        j <= paths@.len(),
                        path_texts_of(out@) == first_occurrences(base + path_texts_of(paths@).take(j as int)),
                        seen@ == (base + path_texts_of(paths@).take(j as int)).to_set(),
                    decreases paths.len() - j,
                {
                    let p = &paths[j];
                    let ghost prev = base + path_texts_of(paths@).take(j as int);
                    proof {
                        assert(base + path_texts_of(paths@).take(j + 1) =~= prev.push(p@));
                        assert((prev.push(p@)).drop_last() =~= prev);
                        prev.lemma_push_to_set_commute(p@);
                    }
                    if !seen.contains(p.as_str()) {
                        seen.insert(p.clone());
                        out.push(p.clone());
                        proof {
                            assert(path_texts_of(out@) =~= first_occurrences(prev).push(p@));
                        }
                    } else {
                        proof {
                            assert(prev.to_set().contains(p@));
                            assert(prev.contains(p@));
                            assert(prev.to_set().insert(p@) =~= prev.to_set());
                        }
                    }
                    j = j + 1;
                }
                proof {
                    assert(path_texts_of(paths@).take(paths@.len() as int) =~= path_texts_of(paths@));
                }
            },
        }
        i = i + 1;
    }
    proof {
        assert(results@.take(results@.len() as int) =~= results@);
    }
    Ok(out)
}

/// Two errors of the same kind with the same texts.
pub open spec fn same_error(a: Error, b: Error) -> bool {
    match (a, b) {
        (Error::Io { path: p1, message: m1 }, Error::Io { path: p2, message: m2 }) => p1@ == p2@ && m1@ == m2@,
        (Error::Parse { path: p1, message: m1 }, Error::Parse { path: p2, message: m2 }) => p1@ == p2@ && m1@ == m2@,
        (Error::DuplicatedDeclaration { name: n1 }, Error::DuplicatedDeclaration { name: n2 }) => n1@ == n2@,
        (Error::UnknownLibrary { name: n1 }, Error::UnknownLibrary { name: n2 }) => n1@ == n2@,
        _ => false,
    }
}

impl Error {
    /// A copy of this error.
    pub fn clone_error(&self) -> (r: Error)
        ensures
            same_error(r, *self),
    {
        match self {
            Error::Io { path, message } => Error::Io { path: path.clone(), message: message.clone() },
            Error::Parse { path, message } => Error::Parse { path: path.clone(), message: message.clone() },
            Error::DuplicatedDeclaration { name } => Error::DuplicatedDeclaration { name: name.clone() },
            Error::UnknownLibrary { name } => Error::UnknownLibrary { name: name.clone() },
        }
    }
}

proof fn lemma_failure_sticky(results: Seq<Result<Vec<String>, Error>>, n: int)
    requires
        0 <= n <= results.len(),
        first_failure(results.take(n)) is Some,
    ensures
        first_failure(results) == first_failure(results.take(n)),
    decreases results.len() - n,
{
    if n < results.len() {
        assert(results.take(n + 1).drop_last() =~= results.take(n));
        lemma_failure_sticky(results, n + 1);
    } else {
        assert(results.take(n) =~= results);
    }
}

/// Where a signature file comes from: the core library, a library of a
/// repository, or a directory given by the user.
#[derive(Debug, Clone)]
pub enum SourceTag {
    Core,
    Library { name: String, version: Option<String> },
    Dir(String),
}

/// A library to load, with the version asked for.
#[derive(Debug, Clone)]
pub struct Library {
    pub name: String,
    pub version: Option<String>,
}

/// The text of an optional string.
pub open spec fn opt_text(s: Option<String>) -> Option<Seq<char>> {
    match s {
        Some(x) => Some(x@),
        None => None,
    }
}

/// `e` is the entry for user directory `d`.
pub open spec fn dir_entry(e: (SourceTag, String), d: String) -> bool {
    &&& e.0 matches SourceTag::Dir(x) && x@ == d@
    &&& e.1@ == d@
}

/// `RBS::EnvironmentLoader`: the roots signatures are loaded from.
pub struct Loader {
    pub core_root: Option<String>,
    pub repository: Repository,
    pub libs: Vec<Library>,
    pub dirs: Vec<String>,
}

/// Library `lib` is found in `repo`.
pub open spec fn lib_found(repo: Repository, lib: Library) -> bool {
    repo.lookup_spec(lib.name@, opt_text(lib.version)) is Some
}

impl Loader {
    pub fn new() -> (r: Self)
        ensures
            r.core_root is None,
            r.repository.wf(),
            r.repository.gems_view().dom().is_empty(),
            r.libs@.len() == 0,
            r.dirs@.len() == 0,
    {
        Loader { core_root: None, repository: Repository::new(), libs: Vec::new(), dirs: Vec::new() }
    }

    pub fn with_core_root(core_root: String) -> (r: Self)
        ensures
            r.core_root matches Some(c) && c@ == core_root@,
            r.repository.wf(),
            r.repository.gems_view().dom().is_empty(),
            r.libs@.len() == 0,
            r.dirs@.len() == 0,
    {
        Loader { core_root: Some(core_root), repository: Repository::new(), libs: Vec::new(), dirs: Vec::new() }
    }

    pub fn add_dir(&mut self, dir: String)
        ensures
            final(self).dirs@ == old(self).dirs@.push(dir),
            final(self).libs == old(self).libs,
            final(self).core_root == old(self).core_root,
            final(self).repository == old(self).repository,
    {
        self.dirs.push(dir);
    }

    pub fn add_library(&mut self, name: String, version: Option<String>)
        ensures
            final(self).libs@.len() == old(self).libs@.len() + 1,
            final(self).libs@.drop_last() == old(self).libs@,
            final(self).libs@.last().name == name,
            final(self).libs@.last().version == version,
            final(self).dirs == old(self).dirs,
            final(self).core_root == old(self).core_root,
            final(self).repository == old(self).repository,
    {
        self.libs.push(Library { name, version });
        proof {
            assert(self.libs@.drop_last() =~= old(self).libs@);
        }
    }

    /// `EnvironmentLoader#each_dir`: the core root, then each library's
    /// directory from the repository, then the user directories; a
    /// library the repository does not have is an error.
    pub fn resolve_dirs(&self) -> (r: Result<Vec<(SourceTag, String)>, Error>)
        requires
            self.repository.wf(),
            forall|i: int| 0 <= i < self.libs@.len() ==> {
                let n = #[trigger] self.libs@[i].name@;
                self.repository.gems_view().contains_key(n) ==> self.repository.gems_view()[n].1 is Some
            },
        ensures
            ({
                let lead = if self.core_root is Some { 1int } else { 0int };
                match r {
                    Ok(v) => {
                        &&& forall|i: int| 0 <= i < self.libs@.len() ==> lib_found(self.repository, #[trigger] self.libs@[i])
                        &&& v@.len() == lead + self.libs@.len() + self.dirs@.len()
                        &&& (self.core_root matches Some(c) ==> v@[0].0 is Core && v@[0].1@ == c@)
                        &&& forall|i: int| 0 <= i < self.libs@.len() ==> {
                            let lib = #[trigger] self.libs@[i];
                            let e = v@[lead + i];
                            &&& e.0 matches SourceTag::Library { name, version } && name@ == lib.name@
                                && opt_text(version) == opt_text(lib.version)
                            &&& self.repository.lookup_spec(lib.name@, opt_text(lib.version)) == Some(e.1@)
                        }
                        &&& forall|j: int| 0 <= j < self.dirs@.len() ==> dir_entry(v@[lead + self.libs@.len() + j], #[trigger] self.dirs@[j])
                    },
                    Err(e) => exists|i: int| 0 <= i < self.libs@.len() && !lib_found(self.repository, #[trigger] self.libs@[i])
                        && (forall|j: int| 0 <= j < i ==> lib_found(self.repository, #[trigger] self.libs@[j]))
                        && (e matches Error::UnknownLibrary { name } && name@ == self.libs@[i].name@),
                }
            }),
    {
        let mut out: Vec<(SourceTag, String)> = Vec::new();
        let lead: usize = match &self.core_root {
            Some(root) => {
                out.push((SourceTag::Core, root.clone()));
                1
            },
            None => 0,
        };
        let mut i: usize = 0;
        while i < self.libs.len()
            invariant
                self.repository.wf(),
                forall|k: int| 0 <= k < self.libs@.len() ==> {
                    let n = #[trigger] self.libs@[k].name@;
                    self.repository.gems_view().contains_key(n) ==> self.repository.gems_view()[n].1 is Some
                },
                lead == (if self.core_root is Some { 1int } else { 0int }),
                i <= self.libs@.len(),
                out@.len() == lead + i,
                self.core_root matches Some(c) ==> out@[0].0 is Core && out@[0].1@ == c@,
                forall|k: int| 0 <= k < i ==> lib_found(self.repository, #[trigger] self.libs@[k]),
                forall|k: int| 0 <= k < i ==> {
                    let lib = #[trigger] self.libs@[k];
                    let e = out@[lead + k];
                    &&& e.0 matches SourceTag::Library { name, version } && name@ == lib.name@
                        && opt_text(version) == opt_text(lib.version)
                    &&& self.repository.lookup_spec(lib.name@, opt_text(lib.version)) == Some(e.1@)
                },
            decreases self.libs.len() - i,
        {
            let lib = &self.libs[i];
            let version: Option<&str> = match &lib.version {
                Some(v) => Some(v.as_str()),
                None => None,
            };
            proof {
                let n = self.libs@[i as int].name@;
                assert(self.repository.gems_view().contains_key(n) ==> self.repository.gems_view()[n].1 is Some);
                assert((match version { Some(v) => Some(v@), None => None::<Seq<char>> }) == opt_text(lib.version));
            }
            match self.repository.lookup(lib.name.as_str(), version) {
                Some(p) => {
                    let ver = match &lib.version {
                        Some(v) => Some(v.clone()),
                        None => None,
                    };
                    out.push((SourceTag::Library { name: lib.name.clone(), version: ver }, p));
                },
                None => {
                    proof {
                        assert(!lib_found(self.repository, self.libs@[i as int]));
                    }
                    return Err(Error::UnknownLibrary { name: lib.name.clone() });
                },
            }
            i = i + 1;
        }
        let mut j: usize = 0;
        while j < self.dirs.len()
            invariant
                lead == (if self.core_root is Some { 1int } else { 0int }),
                j <= self.dirs@.len(),
                out@.len() == lead + self.libs@.len() + j,
                self.core_root matches Some(c) ==> out@[0].0 is Core && out@[0].1@ == c@,
                forall|k: int| 0 <= k < self.libs@.len() ==> lib_found(self.repository, #[trigger] self.libs@[k]),
                forall|k: int| 0 <= k < self.libs@.len() ==> {
                    let lib = #[trigger] self.libs@[k];
                    let e = out@[lead + k];
                    &&& e.0 matches SourceTag::Library { name, version } && name@ == lib.name@
                        && opt_text(version) == opt_text(lib.version)
                    &&& self.repository.lookup_spec(lib.name@, opt_text(lib.version)) == Some(e.1@)
                },
                forall|k: int| 0 <= k < j ==> dir_entry(out@[lead + self.libs@.len() + k], #[trigger] self.dirs@[k]),
            decreases self.dirs.len() - j,
        {
            let dir = &self.dirs[j];
            let ghost before = out@;
            let tag_path = dir.clone();
            let path = dir.clone();
            out.push((SourceTag::Dir(tag_path), path));
            proof {
                assert(out@[lead + self.libs@.len() + j] == (SourceTag::Dir(tag_path), path));
                assert(tag_path@ == self.dirs@[j as int]@);
                assert forall|k: int| 0 <= k < j + 1 implies dir_entry(out@[lead + self.libs@.len() + k], #[trigger] self.dirs@[k]) by {
                    if k < j {
                        assert(out@[lead + self.libs@.len() + k] == before[lead + self.libs@.len() + k]);
                    }
                }
                assert forall|k: int| 0 <= k < self.libs@.len() implies #[trigger] out@[lead + k] == before[lead + k] by {}
            }
            j = j + 1;
        }
        Ok(out)
    }
}

/// A tag spelled out: its kind, its name or directory, its version.
pub open spec fn tag_view(t: SourceTag) -> (nat, Seq<char>, Option<Seq<char>>) {
    match t {
        SourceTag::Core => (0, Seq::empty(), None),
        SourceTag::Library { name, version } => (1, name@, opt_text(version)),
        SourceTag::Dir(d) => (2, d@, None),
    }
}

impl SourceTag {
    /// A copy of this tag.
    pub fn clone_tag(&self) -> (r: SourceTag)
        ensures
            tag_view(r) == tag_view(*self),
    {
        match self {
            SourceTag::Core => SourceTag::Core,
            SourceTag::Library { name, version } => SourceTag::Library {
                name: name.clone(),
                version: match version {
                    Some(v) => Some(v.clone()),
                    None => None,
                },
            },
            SourceTag::Dir(d) => SourceTag::Dir(d.clone()),
        }
    }
}

/// Each root's files paired with its tag, in root order.
pub open spec fn tagged_files(found: Seq<(SourceTag, Vec<String>)>) -> Seq<((nat, Seq<char>, Option<Seq<char>>), Seq<char>)>
    decreases found.len(),
{
    if found.len() == 0 {
        Seq::empty()
    } else {
        let (t, v) = found.last();
        tagged_files(found.drop_last()) + path_texts_of(v@).map_values(|p: Seq<char>| (tag_view(t), p))
    }
}

/// The entries of `s` whose path did not occur before.
pub open spec fn first_by_path(s: Seq<((nat, Seq<char>, Option<Seq<char>>), Seq<char>)>) -> Seq<
    ((nat, Seq<char>, Option<Seq<char>>), Seq<char>),
>
    decreases s.len(),
{
    if s.len() == 0 {
        Seq::empty()
    } else {
        let init = first_by_path(s.drop_last());
        if exists|i: int| 0 <= i < s.len() - 1 && (#[trigger] s[i]).1 == s.last().1 {
            init
        } else {
            init.push(s.last())
        }
    }
}

/// What a tagged list spells.
pub open spec fn tagged_view(v: Seq<(SourceTag, String)>) -> Seq<((nat, Seq<char>, Option<Seq<char>>), Seq<char>)> {
    v.map_values(|e: (SourceTag, String)| (tag_view(e.0), e.1@))
}

/// `EnvironmentLoader#each_signature`'s file list: every root's files
/// with the root's tag, in root order, each path once at its first
/// occurrence.
pub fn dedup_tagged(found: Vec<(SourceTag, Vec<String>)>) -> (r: Vec<(SourceTag, String)>)
    ensures
        tagged_view(r@) == first_by_path(tagged_files(found@)),
{
    let mut seen = StringHashSet::new();
    let mut out: Vec<(SourceTag, String)> = Vec::new();
    let mut i: usize = 0;
    proof {
        assert(found@.take(0) =~= Seq::<(SourceTag, Vec<String>)>::empty());
        assert(tagged_view(out@) =~= first_by_path(tagged_files(found@.take(0))));
    }
    while i < found.len()
        invariant
            i <= found@.len(),
            tagged_view(out@) == first_by_path(tagged_files(found@.take(i as int))),
            forall|p: Seq<char>| #[trigger] seen@.contains(p) <==> exists|k: int|
                0 <= k < tagged_files(found@.take(i as int)).len() && tagged_files(found@.take(i as int))[k].1 == p,
        decreases found.len() - i,
    {
        let tag = &found[i].0;
        let paths = &found[i].1;
        let ghost base = tagged_files(found@.take(i as int));
        let ghost tv = tag_view(*tag);
        let ghost full = path_texts_of(paths@).map_values(|p: Seq<char>| (tv, p));
        proof {
            assert(found@.take(i + 1).drop_last() =~= found@.take(i as int));
            assert(tagged_files(found@.take(i + 1)) == base + full);
        }
        let mut j: usize = 0;
        proof {
            assert(base + full.take(0) =~= base);
        }
        while j < paths.len()
            invariant
                j <= paths@.len(),
                full == path_texts_of(paths@).map_values(|p: Seq<char>| (tv, p)),
                tv == tag_view(*tag),
                tagged_view(out@) == first_by_path(base + full.take(j as int)),
                forall|p: Seq<char>| #[trigger] seen@.contains(p) <==> exists|k: int|
                    0 <= k < (base + full.take(j as int)).len() && (base + full.take(j as int))[k].1 == p,
            decreases paths.len() - j,
        {
            let p = &paths[j];
            let ghost prev = base + full.take(j as int);
            let ghost item = (tv, p@);
            proof {
                assert(full[j as int] == item);
                assert(base + full.take(j + 1) =~= prev.push(item));
                assert(prev.push(item).drop_last() =~= prev);
            }
            if !seen.contains(p.as_str()) {
                seen.insert(p.clone());
                out.push((tag.clone_tag(), p.clone()));
                proof {
                    let s2 = prev.push(item);
                    assert(!(exists|k: int| 0 <= k < s2.len() - 1 && (#[trigger] s2[k]).1 == s2.last().1)) by {
                        if exists|k: int| 0 <= k < s2.len() - 1 && (#[trigger] s2[k]).1 == s2.last().1 {
                            let k = choose|k: int| 0 <= k < s2.len() - 1 && (#[trigger] s2[k]).1 == s2.last().1;
                            assert(prev[k].1 == p@);
                        }
                    }
                    assert(tagged_view(out@) =~= first_by_path(prev).push(item));
                    assert forall|q: Seq<char>| #[trigger] seen@.contains(q) <==> exists|k: int|
                        0 <= k < s2.len() && s2[k].1 == q by {
                        if q == p@ {
                            assert(s2[prev.len() as int].1 == q);
                        } else if exists|k: int| 0 <= k < s2.len() && s2[k].1 == q {
                            let k = choose|k: int| 0 <= k < s2.len() && s2[k].1 == q;
                            assert(k < prev.len());
                            assert(prev[k].1 == q);
                        }
                        if seen@.contains(q) && q != p@ {
                            let k = choose|k: int| 0 <= k < prev.len() && prev[k].1 == q;
                            assert(s2[k].1 == q);
                        }
                    }
                }
            } else {
                proof {
                    let s2 = prev.push(item);
                    let k = choose|k: int| 0 <= k < prev.len() && prev[k].1 == p@;
                    assert(s2[k].1 == s2.last().1);
                    assert forall|q: Seq<char>| #[trigger] seen@.contains(q) <==> exists|k: int|
                        0 <= k < s2.len() && s2[k].1 == q by {
                        if exists|k2: int| 0 <= k2 < s2.len() && s2[k2].1 == q {
                            let k2 = choose|k2: int| 0 <= k2 < s2.len() && s2[k2].1 == q;
                            if k2 == prev.len() {
                                assert(prev[k].1 == q);
                            } else {
                                assert(prev[k2].1 == q);
                            }
                        }
                        if seen@.contains(q) {
                            let k2 = choose|k2: int| 0 <= k2 < prev.len() && prev[k2].1 == q;
                            assert(s2[k2].1 == q);
                        }
                    }
                }
            }
            j = j + 1;
        }
        proof {
            assert(full.take(paths@.len() as int) =~= full);
        }
        i = i + 1;
    }
    proof {
        assert(found@.take(found@.len() as int) =~= found@);
    }
    out
}

} // verus!
