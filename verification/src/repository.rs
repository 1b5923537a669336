use std::cmp::Ordering;
use vstd::hash_map::StringHashMap;
use vstd::prelude::*;
use vstd::std_specs::cmp::{PartialEqSpecImpl, PartialOrdSpecImpl};

use crate::discovery::repository::{
    compare_segments, lemma_version_eq_pointwise, lemma_version_total, lemma_version_transitive,
    entries_view, listings_view, segment_at, strings_view, version_eq, version_le, version_lt,
};
use crate::paths::{join, join_path};
use crate::text::{chars_of, parse_u64, split_chars, split_on, u64_text};

verus! {

/// A release version: numeric components with trailing zeros stripped
/// (at least one component is kept), so `1.0`, `1.0.0` and `1` agree.
#[derive(Debug, Clone, Eq)]
pub struct Version {
    components: Vec<u64>,
}

/// Strip trailing zero components, keeping at least one.
pub open spec fn canonical(c: Seq<u64>) -> Seq<u64>
    decreases c.len(),
{
    if c.len() > 1 && c.last() == 0 {
        canonical(c.drop_last())
    } else {
        c
    }
}

/// The components `Version::parse_release` reads from `s`: every
/// dot-separated piece must be a non-empty run of ASCII digits, with no
/// sign, that fits a `u64` (see `u64_text`).
pub open spec fn release_components(s: Seq<char>) -> Option<Seq<u64>> {
    let parts = split_on(s, '.');
    if s.len() > 0 && forall|i: int| 0 <= i < parts.len() ==> (#[trigger] parts[i]).len() > 0 && u64_text(parts[i]) is Some {
        Some(canonical(Seq::new(parts.len(), |i: int| u64_text(parts[i])->0)))
    } else {
        None
    }
}

/// Number of leading pieces that are plain numbers (see `u64_text`).
pub open spec fn numeric_prefix_len(parts: Seq<Seq<char>>) -> int
    decreases parts.len(),
{
    if parts.len() == 0 || u64_text(parts[0]) is None {
        0
    } else {
        1 + numeric_prefix_len(parts.drop_first())
    }
}

/// The components `Version::parse_request` reads from `s`: the leading
/// pieces that parse as numbers, up to the first one that does not.
pub open spec fn request_components(s: Seq<char>) -> Option<Seq<u64>> {
    let parts = split_on(s, '.');
    let n = numeric_prefix_len(parts);
    if s.len() == 0 || n == 0 {
        None
    } else {
        Some(canonical(Seq::new(n as nat, |i: int| u64_text(parts[i])->0)))
    }
}

impl View for Version {
    type V = Seq<u64>;

    closed spec fn view(&self) -> Seq<u64> {
        self.components@
    }
}

impl Version {
    /// Whether the components are in canonical form.
    pub closed spec fn is_canonical(&self) -> bool {
        canonical(self.components@) == self.components@ && self.components@.len() >= 1
    }

    /// Strip trailing zero components so `1.0`, `1.0.0`, and `1`
    /// all canonicalize to the same value.
    fn canonical(components: Vec<u64>) -> (r: Self)
        requires
            components@.len() >= 1,
        ensures
            r@ == canonical(components@),
            r.is_canonical(),
    {
        let mut components = components;
        let ghost target = canonical(components@);
        while components.len() > 1 && components[components.len() - 1] == 0
            invariant
                components@.len() >= 1,
                canonical(components@) == target,
            decreases components.len(),
        {
            components.pop();
        }
        proof {
            assert(canonical(target) == target);
        }
        Version { components }
    }

    /// Parse a release-only version string (numeric components only,
    /// dot-separated). Returns `None` for empty input or strings
    /// containing any non-numeric component.
    pub fn parse_release(s: &str) -> (r: Option<Self>)
        ensures
            match r {
                Some(v) => release_components(s@) == Some(v@) && v.is_canonical(),
                None => release_components(s@).is_none(),
            },
    {
        let chars = chars_of(s);
        if chars.len() == 0 {
            return None;
        }
        let pieces = split_chars(&chars, '.');
        let ghost parts = split_on(s@, '.');
        let mut components: Vec<u64> = Vec::new();
        let mut i: usize = 0;
        while i < pieces.len()
            invariant
                s@.len() > 0,
                parts == split_on(s@, '.'),
                pieces@.len() == parts.len(),
                forall|j: int| 0 <= j < pieces@.len() ==> #[trigger] pieces@[j]@ == parts[j],
                i <= pieces@.len(),
                components@.len() == i,
                forall|j: int| 0 <= j < i ==> (#[trigger] parts[j]).len() > 0 && u64_text(parts[j]) is Some,
                forall|j: int| 0 <= j < i ==> #[trigger] components@[j] == u64_text(parts[j])->0,
            decreases pieces.len() - i,
        {
            let piece = &pieces[i];
            if piece.len() == 0 {
                return None;
            }
            match parse_u64(piece) {
                Some(n) => components.push(n),
                None => return None,
            }
            i = i + 1;
        }
        proof {
            crate::text::lemma_split_on_nonempty(s@, '.');
            assert(components@ =~= Seq::new(parts.len(), |j: int| u64_text(parts[j])->0));
        }
        Some(Self::canonical(components))
    }

    /// Strip the prerelease tail: the first non-numeric component (and
    /// everything after it) is discarded; everything before is kept.
    pub fn parse_request(s: &str) -> (r: Option<Self>)
        ensures
            match r {
                Some(v) => request_components(s@) == Some(v@) && v.is_canonical(),
                None => request_components(s@).is_none(),
            },
    {
        let chars = chars_of(s);
        if chars.len() == 0 {
            return None;
        }
        let pieces = split_chars(&chars, '.');
        let ghost parts = split_on(s@, '.');
        let mut components: Vec<u64> = Vec::new();
        let mut i: usize = 0;
        let mut stopped = false;
        while i < pieces.len() && !stopped
            invariant
                s@.len() > 0,
                parts == split_on(s@, '.'),
                pieces@.len() == parts.len(),
                forall|j: int| 0 <= j < pieces@.len() ==> #[trigger] pieces@[j]@ == parts[j],
                i <= pieces@.len(),
                components@.len() == i,
                forall|j: int| 0 <= j < i ==> u64_text(#[trigger] parts[j]) is Some,
                forall|j: int| 0 <= j < i ==> #[trigger] components@[j] == u64_text(parts[j])->0,
                stopped ==> i < parts.len() && u64_text(parts[i as int]) is None,
            decreases pieces.len() - i + (if stopped { 0int } else { 1int }),
        {
            match parse_u64(&pieces[i]) {
                Some(n) => {
                    components.push(n);
                    i = i + 1;
                },
                None => {
                    stopped = true;
                },
            }
        }
        proof {
            lemma_numeric_prefix(parts, i as int);
        }
        if components.len() == 0 {
            return None;
        }
        proof {
            assert(components@ =~= Seq::new(i as nat, |j: int| u64_text(parts[j])->0));
        }
        Some(Self::canonical(components))
    }

    /// Version order (see [`crate::discovery::repository::compare_segments`]).
    pub fn cmp(&self, other: &Self) -> (r: Ordering)
        ensures
            r == compare_segments(self@, other@),
    {
        let probe_a = crate::discovery::repository::Version { segments: copy_u64s(&self.components) };
        let probe_b = crate::discovery::repository::Version { segments: copy_u64s(&other.components) };
        probe_a.cmp_segments(&probe_b)
    }
}

fn copy_u64s(v: &Vec<u64>) -> (r: Vec<u64>)
    ensures
        r@ == v@,
{
    let mut r: Vec<u64> = Vec::new();
    let mut i: usize = 0;
    while i < v.len()
        invariant
            i <= v@.len(),
            r@ == v@.take(i as int),
        decreases v.len() - i,
    {
        r.push(v[i]);
        proof {
            assert(v@.take(i + 1) =~= v@.take(i as int).push(v@[i as int]));
        }
        i = i + 1;
    }
    proof {
        assert(v@.take(v@.len() as int) =~= v@);
    }
    r
}

proof fn lemma_numeric_prefix(parts: Seq<Seq<char>>, i: int)
    requires
        0 <= i <= parts.len(),
        forall|j: int| 0 <= j < i ==> u64_text(#[trigger] parts[j]) is Some,
        i < parts.len() ==> u64_text(parts[i]) is None,
    ensures
        numeric_prefix_len(parts) == i,
    decreases i,
{
    if i > 0 {
        assert forall|j: int| 0 <= j < i - 1 implies u64_text(#[trigger] parts.drop_first()[j]) is Some by {
            assert(parts.drop_first()[j] == parts[j + 1]);
        }
        lemma_numeric_prefix(parts.drop_first(), i - 1);
    }
}

impl PartialEq for Version {
    fn eq(&self, other: &Self) -> (r: bool) {
        let a = &self.components;
        let b = &other.components;
        if a.len() != b.len() {
            return false;
        }
        let mut i: usize = 0;
        while i < a.len()
            invariant
                a@ == self.components@,
                b@ == other.components@,
                a@.len() == b@.len(),
                i <= a@.len(),
                forall|j: int| 0 <= j < i ==> a@[j] == b@[j],
            decreases a.len() - i,
        {
            if a[i] != b[i] {
                return false;
            }
            i = i + 1;
        }
        proof {
            assert(a@ =~= b@);
        }
        true
    }
}

impl PartialEqSpecImpl for Version {
    open spec fn obeys_eq_spec() -> bool {
        true
    }

    open spec fn eq_spec(&self, other: &Self) -> bool {
        self@ == other@
    }
}

impl PartialOrd for Version {
    fn partial_cmp(&self, other: &Self) -> (r: Option<Ordering>) {
        Some(self.cmp(other))
    }
}

impl PartialOrdSpecImpl for Version {
    open spec fn obeys_partial_cmp_spec() -> bool {
        true
    }

    open spec fn partial_cmp_spec(&self, other: &Self) -> Option<Ordering> {
        Some(compare_segments(self@, other@))
    }
}

proof fn lemma_canonical_len(c: Seq<u64>)
    ensures
        canonical(c).len() <= c.len(),
    decreases c.len(),
{
    if c.len() > 1 && c.last() == 0 {
        lemma_canonical_len(c.drop_last());
    }
}

/// Canonical component lists that compare equal are identical.
pub proof fn lemma_canonical_eq(a: Seq<u64>, b: Seq<u64>)
    requires
        canonical(a) == a,
        canonical(b) == b,
        a.len() >= 1,
        b.len() >= 1,
        version_eq(a, b),
    ensures
        a == b,
{
    if a.len() < b.len() {
        lemma_version_eq_pointwise(a, b, b.len() - 1);
        lemma_canonical_len(b.drop_last());
        assert(b.last() != 0);
    } else if b.len() < a.len() {
        lemma_version_eq_pointwise(a, b, a.len() - 1);
        lemma_canonical_len(a.drop_last());
        assert(a.last() != 0);
    } else {
        assert forall|i: int| 0 <= i < a.len() implies a[i] == b[i] by {
            lemma_version_eq_pointwise(a, b, i);
        }
        assert(a =~= b);
    }
}

/// The release versions one gem directory contributes: each listed
/// entry name that parses as a release version, with its directory.
pub open spec fn release_entries(dir: Seq<char>, names: Seq<Seq<char>>) -> Seq<(Seq<u64>, Seq<char>)>
    decreases names.len(),
{
    if names.len() == 0 {
        Seq::empty()
    } else {
        let init = release_entries(dir, names.drop_last());
        match release_components(names.last()) {
            Some(v) => init.push((v, join_path(dir, names.last()))),
            None => init,
        }
    }
}

/// The release versions all gem directories contribute, in order.
pub open spec fn all_release_entries(dirs: Seq<Seq<char>>, listings: Seq<Seq<Seq<char>>>) -> Seq<
    (Seq<u64>, Seq<char>),
>
    decreases dirs.len(),
{
    if dirs.len() == 0 || listings.len() == 0 {
        Seq::empty()
    } else {
        all_release_entries(dirs.drop_last(), listings.drop_last()) + release_entries(
            dirs.last(),
            listings.last(),
        )
    }
}

/// Version -> directory, later entries overriding earlier ones for the
/// same version.
pub open spec fn version_map(entries: Seq<(Seq<u64>, Seq<char>)>) -> Map<Seq<u64>, Seq<char>>
    decreases entries.len(),
{
    if entries.len() == 0 {
        Map::empty()
    } else {
        version_map(entries.drop_last()).insert(entries.last().0, entries.last().1)
    }
}

/// A version listed again later overrides what was listed before: the
/// map sends each version to the directory listed last for it, and keeps
/// every version listed.
pub proof fn lemma_later_entry_wins(entries: Seq<(Seq<u64>, Seq<char>)>, i: int)
    requires
        0 <= i < entries.len(),
        forall|j: int| i < j < entries.len() ==> (#[trigger] entries[j]).0 != entries[i].0,
    ensures
        version_map(entries).contains_key(entries[i].0),
        version_map(entries)[entries[i].0] == entries[i].1,
    decreases entries.len(),
{
    if i < entries.len() - 1 {
        let init = entries.drop_last();
        assert forall|j: int| i < j < init.len() implies (#[trigger] init[j]).0 != init[i].0 by {
            assert(init[j] == entries[j]);
        }
        lemma_later_entry_wins(init, i);
        assert(entries.last() == entries[entries.len() - 1]);
    }
}

/// `k` is a highest version among the keys of `m`.
pub open spec fn is_highest(m: Map<Seq<u64>, Seq<char>>, k: Seq<u64>) -> bool {
    m.contains_key(k) && forall|o: Seq<u64>| #[trigger] m.contains_key(o) ==> version_le(o, k)
}

/// `k` is a lowest version among the keys of `m`.
pub open spec fn is_lowest(m: Map<Seq<u64>, Seq<char>>, k: Seq<u64>) -> bool {
    m.contains_key(k) && forall|o: Seq<u64>| #[trigger] m.contains_key(o) ==> version_le(k, o)
}

/// `k` is the highest version of `m` not above `req`.
pub open spec fn is_best_below(m: Map<Seq<u64>, Seq<char>>, req: Seq<u64>, k: Seq<u64>) -> bool {
    &&& m.contains_key(k)
    &&& version_le(k, req)
    &&& forall|o: Seq<u64>| #[trigger] m.contains_key(o) && version_le(o, req) ==> version_le(o, k)
}

/// The directory `RBS::Repository#lookup` returns for a loaded gem:
/// the highest version when no version is asked for; otherwise the
/// highest version not above the requested release, or the lowest
/// version when every version is above it.
pub open spec fn index_lookup(m: Map<Seq<u64>, Seq<char>>, version: Option<Seq<char>>) -> Option<Seq<char>> {
    if m.dom().is_empty() {
        None
    } else {
        match version {
            None => Some(m[choose|k: Seq<u64>| is_highest(m, k)]),
            Some(s) => match request_components(s) {
                None => None,
                Some(req) => if exists|k: Seq<u64>| #[trigger] m.contains_key(k) && version_le(k, req) {
                    Some(m[choose|k: Seq<u64>| is_best_below(m, req, k)])
                } else {
                    Some(m[choose|k: Seq<u64>| is_lowest(m, k)])
                },
            },
        }
    }
}

/// Every key of `m` is a canonical component list.
pub open spec fn canonical_keys(m: Map<Seq<u64>, Seq<char>>) -> bool {
    forall|k: Seq<u64>| #[trigger] m.contains_key(k) ==> canonical(k) == k && k.len() >= 1
}

proof fn lemma_unique_choices(m: Map<Seq<u64>, Seq<char>>, req: Seq<u64>, a: Seq<u64>, b: Seq<u64>)
    requires
        canonical_keys(m),
    ensures
        is_highest(m, a) && is_highest(m, b) ==> a == b,
        is_lowest(m, a) && is_lowest(m, b) ==> a == b,
        is_best_below(m, req, a) && is_best_below(m, req, b) ==> a == b,
{
    if m.contains_key(a) && m.contains_key(b) && version_le(a, b) && version_le(b, a) {
        lemma_version_total(a, b);
        lemma_canonical_eq(a, b);
    }
}

/// `a < b` in version order.
fn below(a: &Version, b: &Version) -> (r: bool)
    ensures
        r == version_lt(a@, b@),
{
    match a.cmp(b) {
        Ordering::Less => true,
        _ => false,
    }
}

/// One gem: the directories that hold it and, once loaded, its release
/// versions.
struct GemEntry {
    paths: Vec<String>,
    versions: Option<Vec<(Version, String)>>,
}

/// What the index knows of one gem: its directories and, once loaded,
/// its version -> directory map.
pub type GemIndexState = (Seq<Seq<char>>, Option<Map<Seq<u64>, Seq<char>>>);

pub open spec fn pairs_map(v: Seq<(Version, String)>) -> Map<Seq<u64>, Seq<char>> {
    Map::new(
        |k: Seq<u64>| exists|i: int| 0 <= i < v.len() && (#[trigger] v[i]).0@ == k,
        |k: Seq<u64>| v[choose|i: int| 0 <= i < v.len() && (#[trigger] v[i]).0@ == k].1@,
    )
}

impl GemEntry {
    spec fn wf(&self) -> bool {
        match self.versions {
            None => true,
            Some(v) => {
                &&& forall|i: int| 0 <= i < v@.len() ==> (#[trigger] v@[i]).0.is_canonical()
                &&& forall|i: int, j: int| 0 <= i < j < v@.len() ==> (#[trigger] v@[i]).0@ != (#[trigger] v@[j]).0@
            },
        }
    }

    spec fn state(&self) -> GemIndexState {
        (
            strings_view(self.paths@),
            match self.versions {
                None => None,
                Some(v) => Some(pairs_map(v@)),
            },
        )
    }

    fn new() -> (r: Self)
        ensures
            r.wf(),
            r.state() == (Seq::<Seq<char>>::empty(), None::<Map<Seq<u64>, Seq<char>>>),
    {
        let r = GemEntry { paths: Vec::new(), versions: None };
        proof {
            assert(strings_view(r.paths@) =~= Seq::<Seq<char>>::empty());
        }
        r
    }

    fn load_from(&mut self, listings: &Vec<Vec<String>>)
        requires
            listings@.len() == old(self).paths@.len(),
        ensures
            final(self).wf(),
            final(self).state().0 == old(self).state().0,
            final(self).state().1 == Some(version_map(all_release_entries(old(self).state().0, listings_view(listings@)))),
    {
        let mut found: Vec<(Version, String)> = Vec::new();
        let ghost dirs = strings_view(self.paths@);
        let ghost lists = listings_view(listings@);
        let ghost mut entries: Seq<(Seq<u64>, Seq<char>)> = Seq::empty();
        proof {
            assert(pairs_map(found@) =~= Map::<Seq<u64>, Seq<char>>::empty());
            assert(dirs.take(0) =~= Seq::<Seq<char>>::empty());
        }
        let mut i: usize = 0;
        while i < self.paths.len()
            invariant
                dirs == strings_view(self.paths@),
                lists == listings_view(listings@),
                listings@.len() == self.paths@.len(),
                i <= self.paths@.len(),
                entries == all_release_entries(dirs.take(i as int), lists.take(i as int)),
                pairs_map(found@) == version_map(entries),
                forall|j: int| 0 <= j < found@.len() ==> (#[trigger] found@[j]).0.is_canonical(),
                forall|a: int, b: int| 0 <= a < b < found@.len() ==> (#[trigger] found@[a]).0@ != (#[trigger] found@[b]).0@,
            decreases self.paths.len() - i,
        {
            let dir = &self.paths[i];
            let names = &listings[i];
            let ghost base = entries;
            let mut j: usize = 0;
            proof {
                assert(release_entries(dirs[i as int], lists[i as int].take(0)) =~= Seq::empty());
                assert(entries =~= base + release_entries(dirs[i as int], lists[i as int].take(0)));
            }
            while j < names.len()
                invariant
                    i < self.paths@.len(),
                    dirs == strings_view(self.paths@),
                    lists == listings_view(listings@),
                    listings@.len() == self.paths@.len(),
                    *names == listings@[i as int],
                    *dir == self.paths@[i as int],
                    j <= names@.len(),
                    entries == base + release_entries(dirs[i as int], lists[i as int].take(j as int)),
                    pairs_map(found@) == version_map(entries),
                    forall|t: int| 0 <= t < found@.len() ==> (#[trigger] found@[t]).0.is_canonical(),
                    forall|a: int, b: int| 0 <= a < b < found@.len() ==> (#[trigger] found@[a]).0@ != (#[trigger] found@[b]).0@,
                decreases names.len() - j,
            {
                let name = &names[j];
                proof {
                    assert(lists[i as int] == strings_view(names@));
                    assert(lists[i as int].take(j + 1).drop_last() =~= lists[i as int].take(j as int));
                    assert(lists[i as int].take(j + 1).last() == name@);
                    assert(dirs[i as int] == dir@);
                }
                match Version::parse_release(name.as_str()) {
                    Some(v) => {
                        let path = join(dir.as_str(), name.as_str());
                        proof {
                            let e = (v@, path@);
                            let prev = entries;
                            assert(base + release_entries(dirs[i as int], lists[i as int].take(j + 1))
                                =~= prev.push(e));
                            entries = prev.push(e);
                            assert(entries.drop_last() =~= prev);
                            assert(version_map(entries) == version_map(prev).insert(v@, path@));
                        }
                        GemEntry::upsert(&mut found, v, path);
                    },
                    None => {
                        proof {
                            assert(base + release_entries(dirs[i as int], lists[i as int].take(j + 1))
                                =~= entries);
                        }
                    },
                }
                j = j + 1;
            }
            proof {
                assert(lists[i as int].take(names@.len() as int) =~= lists[i as int]);
                assert(dirs.take(i + 1).drop_last() =~= dirs.take(i as int));
                assert(lists.take(i + 1).drop_last() =~= lists.take(i as int));
                assert(lists[i as int].len() == names@.len());
            }
            i = i + 1;
        }
        proof {
            assert(dirs.take(dirs.len() as int) =~= dirs);
            assert(lists.take(lists.len() as int) =~= lists);
        }
        self.versions = Some(found);
    }

    /// Largest known version's directory.
    fn latest(&self) -> (r: Option<&String>)
        requires
            self.wf(),
            self.state().1 is Some,
        ensures
            ({
                let m = self.state().1->0;
                match r {
                    None => m.dom().is_empty(),
                    Some(p) => exists|k: Seq<u64>| is_highest(m, k) && m[k] == p@,
                }
            }),
    {
        let v = match &self.versions {
            Some(v) => v,
            None => return None,
        };
        let ghost m = pairs_map(v@);
        if v.len() == 0 {
            proof {
                assert(m.dom() =~= Set::<Seq<u64>>::empty());
            }
            return None;
        }
        let mut b: usize = 0;
        let mut i: usize = 1;
        proof {
            lemma_version_total(v@[0].0@, v@[0].0@);
        }
        while i < v.len()
            invariant
                1 <= i <= v@.len(),
                b < i,
                forall|j: int| 0 <= j < i ==> version_le(#[trigger] v@[j].0@, v@[b as int].0@),
            decreases v.len() - i,
        {
            if below(&v[b].0, &v[i].0) {
                proof {
                    assert forall|j: int| 0 <= j < i + 1 implies version_le(#[trigger] v@[j].0@, v@[i as int].0@) by {
                        if j < i {
                            lemma_version_total(v@[b as int].0@, v@[i as int].0@);
                            lemma_version_transitive(v@[j].0@, v@[b as int].0@, v@[i as int].0@);
                        } else {
                            lemma_version_total(v@[j].0@, v@[j].0@);
                        }
                    }
                }
                b = i;
            } else {
                proof {
                    lemma_version_total(v@[b as int].0@, v@[i as int].0@);
                }
            }
            i = i + 1;
        }
        proof {
            let k = v@[b as int].0@;
            assert(m.contains_key(k));
            assert forall|o: Seq<u64>| #[trigger] m.contains_key(o) implies version_le(o, k) by {
                let j = choose|j: int| 0 <= j < v@.len() && (#[trigger] v@[j]).0@ == o;
            }
            let c = choose|j: int| 0 <= j < v@.len() && (#[trigger] v@[j]).0@ == k;
            if c != b {
                if c < b {
                    assert(v@[c].0@ != v@[b as int].0@);
                } else {
                    assert(v@[b as int].0@ != v@[c].0@);
                }
            }
            assert(m[k] == v@[b as int].1@);
            assert(is_highest(m, k));
            assert(self.state().1->0 == m);
        }
        Some(&v[b].1)
    }

    /// Largest version `<= requested`. Falls back to the smallest known
    /// version when nothing is `<= requested`.
    fn best_for(&self, requested: &Version) -> (r: Option<&String>)
        requires
            self.wf(),
            self.state().1 is Some,
        ensures
            ({
                let m = self.state().1->0;
                match r {
                    None => m.dom().is_empty(),
                    Some(p) => if exists|k: Seq<u64>| #[trigger] m.contains_key(k) && version_le(k, requested@) {
                        exists|k: Seq<u64>| is_best_below(m, requested@, k) && m[k] == p@
                    } else {
                        exists|k: Seq<u64>| is_lowest(m, k) && m[k] == p@
                    },
                }
            }),
    {
        let v = match &self.versions {
            Some(v) => v,
            None => return None,
        };
        let ghost m = pairs_map(v@);
        let ghost req = requested@;
        if v.len() == 0 {
            proof {
                assert(m.dom() =~= Set::<Seq<u64>>::empty());
            }
            return None;
        }
        let mut lo: usize = 0;
        let mut hit: Option<usize> = None;
        let mut i: usize = 0;
        while i < v.len()
            invariant
                i <= v@.len(),
                v@.len() > 0,
                lo < v@.len(),
                req == requested@,
                i > 0 ==> lo < i,
                forall|j: int| 0 <= j < i ==> version_le(v@[lo as int].0@, #[trigger] v@[j].0@),
                match hit {
                    None => forall|j: int| 0 <= j < i ==> !version_le(#[trigger] v@[j].0@, req),
                    Some(h) => h < i && version_le(v@[h as int].0@, req) && forall|j: int|
                        0 <= j < i && version_le(#[trigger] v@[j].0@, req) ==> version_le(v@[j].0@, v@[h as int].0@),
                },
            decreases v.len() - i,
        {
            let ghost x = v@[i as int].0@;
            proof {
                lemma_version_total(x, x);
            }
            if i == 0 || below(&v[i].0, &v[lo].0) {
                proof {
                    if i > 0 {
                        assert forall|j: int| 0 <= j < i + 1 implies version_le(x, #[trigger] v@[j].0@) by {
                            if j < i {
                                lemma_version_total(x, v@[lo as int].0@);
                                lemma_version_transitive(x, v@[lo as int].0@, v@[j].0@);
                            }
                        }
                    }
                }
                lo = i;
            } else {
                proof {
                    lemma_version_total(v@[lo as int].0@, x);
                }
            }
            // x <= requested ?
            if !below(requested, &v[i].0) {
                proof {
                    lemma_version_total(x, req);
                }
                let replace = match hit {
                    None => true,
                    Some(h) => below(&v[h].0, &v[i].0),
                };
                if replace {
                    proof {
                        assert forall|j: int| 0 <= j < i + 1 && version_le(#[trigger] v@[j].0@, req) implies version_le(v@[j].0@, x) by {
                            if j < i {
                                match hit {
                                    Some(h) => {
                                        lemma_version_total(v@[h as int].0@, x);
                                        lemma_version_transitive(v@[j].0@, v@[h as int].0@, x);
                                    },
                                    None => {},
                                }
                            }
                        }
                    }
                    hit = Some(i);
                } else {
                    proof {
                        match hit {
                            Some(h) => {
                                lemma_version_total(v@[h as int].0@, x);
                            },
                            None => {},
                        }
                    }
                }
            } else {
                proof {
                    lemma_version_total(x, req);
                }
            }
            i = i + 1;
        }
        proof {
            assert forall|j: int| 0 <= j < v@.len() implies #[trigger] m.contains_key(v@[j].0@) && m[v@[j].0@] == v@[j].1@ by {
                let c = choose|c: int| 0 <= c < v@.len() && (#[trigger] v@[c]).0@ == v@[j].0@;
                if c != j {
                    if c < j {
                        assert(v@[c].0@ != v@[j].0@);
                    } else {
                        assert(v@[j].0@ != v@[c].0@);
                    }
                }
            }
        }
        match hit {
            Some(h) => {
                proof {
                    let k = v@[h as int].0@;
                    assert(m.contains_key(k));
                    assert forall|o: Seq<u64>| #[trigger] m.contains_key(o) && version_le(o, req) implies version_le(o, k) by {
                        let j = choose|j: int| 0 <= j < v@.len() && (#[trigger] v@[j]).0@ == o;
                    }
                    assert(is_best_below(m, req, k));
                    assert(m[k] == v@[h as int].1@);
                    assert(m.contains_key(k) && version_le(k, requested@));
                    assert(self.state().1->0 == m);
                }
                Some(&v[h].1)
            },
            None => {
                proof {
                    let k = v@[lo as int].0@;
                    assert(m.contains_key(k));
                    assert forall|o: Seq<u64>| #[trigger] m.contains_key(o) implies version_le(k, o) by {
                        let j = choose|j: int| 0 <= j < v@.len() && (#[trigger] v@[j]).0@ == o;
                    }
                    assert forall|o: Seq<u64>| !(#[trigger] m.contains_key(o) && version_le(o, req)) by {
                        if m.contains_key(o) {
                            let j = choose|j: int| 0 <= j < v@.len() && (#[trigger] v@[j]).0@ == o;
                        }
                    }
                    assert(is_lowest(m, k));
                    assert(m[k] == v@[lo as int].1@);
                    assert(!exists|o: Seq<u64>| #[trigger] m.contains_key(o) && version_le(o, requested@));
                    assert(self.state().1->0 == m);
                }
                Some(&v[lo].1)
            },
        }
    }

    /// Record `path` for version `v`, replacing an earlier directory for
    /// the same version.
    fn upsert(found: &mut Vec<(Version, String)>, v: Version, path: String)
        requires
            v.is_canonical(),
            forall|i: int| 0 <= i < old(found)@.len() ==> (#[trigger] old(found)@[i]).0.is_canonical(),
            forall|i: int, j: int| 0 <= i < j < old(found)@.len() ==> (#[trigger] old(found)@[i]).0@ != (#[trigger] old(found)@[j]).0@,
        ensures
            forall|i: int| 0 <= i < final(found)@.len() ==> (#[trigger] final(found)@[i]).0.is_canonical(),
            forall|i: int, j: int| 0 <= i < j < final(found)@.len() ==> (#[trigger] final(found)@[i]).0@ != (#[trigger] final(found)@[j]).0@,
            pairs_map(final(found)@) == pairs_map(old(found)@).insert(v@, path@),
    {
        let mut i: usize = 0;
        while i < found.len()
            invariant
                i <= found@.len(),
                found@ == old(found)@,
                v.is_canonical(),
                forall|j: int| 0 <= j < found@.len() ==> (#[trigger] found@[j]).0.is_canonical(),
                forall|a: int, b: int| 0 <= a < b < found@.len() ==> (#[trigger] found@[a]).0@ != (#[trigger] found@[b]).0@,
                forall|j: int| 0 <= j < i ==> (#[trigger] found@[j]).0@ != v@,
            decreases found.len() - i,
        {
            if found[i].0 == v {
                let ghost before = found@;
                let entry = (v, path);
                found.set(i, entry);
                proof {
                    assert(before[i as int].0@ == v@);
                    assert forall|j: int| 0 <= j < found@.len() && j != i implies (#[trigger] found@[j]).0@ != v@ by {
                        assert(found@[j] == before[j]);
                        if j < i {
                            assert(before[j].0@ != before[i as int].0@);
                        } else {
                            assert(before[i as int].0@ != before[j].0@);
                        }
                    }
                    let m = pairs_map(found@);
                    let t = pairs_map(before).insert(v@, path@);
                    assert forall|k: Seq<u64>| m.contains_key(k) <==> t.contains_key(k) by {
                        if t.contains_key(k) && k != v@ {
                            let j = choose|j: int| 0 <= j < before.len() && (#[trigger] before[j]).0@ == k;
                            assert(found@[j] == before[j]);
                        }
                        if m.contains_key(k) && k != v@ {
                            let j = choose|j: int| 0 <= j < found@.len() && (#[trigger] found@[j]).0@ == k;
                            assert(found@[j] == before[j]);
                        }
                        if k == v@ {
                            assert(found@[i as int].0@ == k);
                        }
                    }
                    assert forall|k: Seq<u64>| #[trigger] m.contains_key(k) implies m[k] == t[k] by {
                        let j = choose|j: int| 0 <= j < found@.len() && (#[trigger] found@[j]).0@ == k;
                        if k == v@ {
                            assert(j == i);
                        } else {
                            let j2 = choose|j: int| 0 <= j < before.len() && (#[trigger] before[j]).0@ == k;
                            assert(found@[j2] == before[j2]);
                            if j != j2 {
                                assert(found@[j] == before[j]);
                            }
                        }
                    }
                    assert(m =~= t);
                }
                return;
            }
            i = i + 1;
        }
        let ghost before = found@;
        found.push((v, path));
        proof {
            let m = pairs_map(found@);
            let t = pairs_map(before).insert(v@, path@);
            assert forall|k: Seq<u64>| m.contains_key(k) <==> t.contains_key(k) by {
                if t.contains_key(k) && k != v@ {
                    let j = choose|j: int| 0 <= j < before.len() && (#[trigger] before[j]).0@ == k;
                    assert(found@[j] == before[j]);
                }
                if k == v@ {
                    assert(found@[before.len() as int].0@ == k);
                }
            }
            assert forall|k: Seq<u64>| #[trigger] m.contains_key(k) implies m[k] == t[k] by {
                let j = choose|j: int| 0 <= j < found@.len() && (#[trigger] found@[j]).0@ == k;
                if k == v@ {
                    assert(j == before.len());
                } else {
                    let j2 = choose|j: int| 0 <= j < before.len() && (#[trigger] before[j]).0@ == k;
                    assert(found@[j2] == before[j2]);
                    if j != j2 {
                        assert(j < before.len());
                        assert(found@[j] == before[j]);
                    }
                }
            }
            assert(m =~= t);
        }
    }
}

/// Registering gem directory `dir` under `name`: a new name starts an
/// unloaded gem; a known gem gains the directory and keeps whatever
/// versions it already loaded.
pub open spec fn add_index_dir(m: Map<Seq<char>, GemIndexState>, name: Seq<char>, dir: Seq<char>) -> Map<
    Seq<char>,
    GemIndexState,
> {
    if m.contains_key(name) {
        m.insert(name, (m[name].0.push(dir), m[name].1))
    } else {
        m.insert(name, (seq![dir], None))
    }
}

/// Registering `(name, dir)` entries in order.
pub open spec fn add_index_dirs(m: Map<Seq<char>, GemIndexState>, entries: Seq<(Seq<char>, Seq<char>)>) -> Map<
    Seq<char>,
    GemIndexState,
>
    decreases entries.len(),
{
    if entries.len() == 0 {
        m
    } else {
        add_index_dir(add_index_dirs(m, entries.drop_last()), entries.last().0, entries.last().1)
    }
}

/// Every loaded version map of `m` has canonical keys.
pub open spec fn canonical_states(m: Map<Seq<char>, GemIndexState>) -> bool {
    forall|n: Seq<char>| #[trigger] m.contains_key(n) && m[n].1 is Some ==> canonical_keys(m[n].1->0)
}

/// Gem name -> repository directories holding it, with lazily loaded
/// version maps.
pub struct RepositoryIndex {
    names: Vec<String>,
    gems: Vec<GemEntry>,
    index: StringHashMap<usize>,
}

impl RepositoryIndex {
    /// The known gems by name.
    pub closed spec fn gems_view(&self) -> Map<Seq<char>, GemIndexState> {
        Map::new(
            |name: Seq<char>| self.index@.contains_key(name),
            |name: Seq<char>| self.gems@[self.index@[name] as int].state(),
        )
    }

    pub closed spec fn wf(&self) -> bool {
        &&& self.names@.len() == self.gems@.len()
        &&& forall|name: Seq<char>| #[trigger] self.index@.contains_key(name) ==> (self.index@[name] as int) < self.gems@.len()
            && self.names@[self.index@[name] as int]@ == name
        &&& forall|i: int| 0 <= i < self.names@.len() ==> #[trigger] self.index@.contains_key(self.names@[i]@)
            && self.index@[self.names@[i]@] == i
        &&& forall|i: int| 0 <= i < self.gems@.len() ==> (#[trigger] self.gems@[i]).wf()
    }

    /// Loaded version maps only ever hold canonical versions.
    pub proof fn lemma_canonical_states(&self)
        requires
            self.wf(),
        ensures
            canonical_states(self.gems_view()),
    {
        assert forall|n: Seq<char>| #[trigger] self.gems_view().contains_key(n) && self.gems_view()[n].1 is Some
            implies canonical_keys(self.gems_view()[n].1->0) by {
            let g = self.gems@[self.index@[n] as int];
            assert(g.wf());
            let v = g.versions->0;
            assert forall|k: Seq<u64>| #[trigger] pairs_map(v@).contains_key(k) implies canonical(k) == k && k.len() >= 1 by {
                let j = choose|j: int| 0 <= j < v@.len() && (#[trigger] v@[j]).0@ == k;
                assert(v@[j].0.is_canonical());
            }
        }
    }

    pub fn new() -> (r: Self)
        ensures
            r.wf(),
            r.gems_view() == Map::<Seq<char>, GemIndexState>::empty(),
    {
        let r = RepositoryIndex { names: Vec::new(), gems: Vec::new(), index: StringHashMap::new() };
        proof {
            assert(r.gems_view() =~= Map::<Seq<char>, GemIndexState>::empty());
        }
        r
    }
}

impl GemEntry {
    fn add_path(&mut self, path: String)
        requires
            old(self).wf(),
        ensures
            final(self).wf(),
            final(self).state() == (old(self).state().0.push(path@), old(self).state().1),
    {
        self.paths.push(path);
        proof {
            assert(strings_view(self.paths@) =~= strings_view(old(self).paths@).push(path@));
        }
    }

    fn is_loaded(&self) -> (b: bool)
        ensures
            b == self.state().1 is Some,
    {
        self.versions.is_some()
    }

    fn dir_copies(&self) -> (r: Vec<String>)
        ensures
            strings_view(r@) == self.state().0,
    {
        let mut r: Vec<String> = Vec::new();
        let mut i: usize = 0;
        while i < self.paths.len()
            invariant
                i <= self.paths@.len(),
                strings_view(r@) == strings_view(self.paths@).take(i as int),
            decreases self.paths.len() - i,
        {
            let c = self.paths[i].clone();
            let ghost before = r@;
            r.push(c);
            proof {
                assert(strings_view(r@) =~= strings_view(before).push(c@));
                assert(strings_view(self.paths@).take(i + 1) =~= strings_view(self.paths@).take(i as int).push(c@));
            }
            i = i + 1;
        }
        proof {
            assert(strings_view(self.paths@).take(self.paths@.len() as int) =~= strings_view(self.paths@));
        }
        r
    }
}

impl RepositoryIndex {
    /// Register a repository root given its gem-name subdirectories, as
    /// `(gem name, gem directory)` in listing order (nothing when the
    /// root cannot be read). Version subdirectories are read later, when
    /// a gem is first looked up.
    pub fn add_listing(&mut self, entries: Vec<(String, String)>)
        requires
            old(self).wf(),
        ensures
            final(self).wf(),
            final(self).gems_view() == add_index_dirs(old(self).gems_view(), entries_view(entries@)),
    {
        let mut k: usize = 0;
        let ghost ev = entries_view(entries@);
        proof {
            assert(ev.take(0) =~= Seq::<(Seq<char>, Seq<char>)>::empty());
        }
        while k < entries.len()
            invariant
                self.wf(),
                ev == entries_view(entries@),
                k <= entries@.len(),
                self.gems_view() == add_index_dirs(old(self).gems_view(), ev.take(k as int)),
            decreases entries.len() - k,
        {
            let name = &entries[k].0;
            let path = entries[k].1.clone();
            let ghost before_view = self.gems_view();
            let ghost before_gems = self.gems@;
            let ghost before_names = self.names@;
            let idx = match self.index.get(name.as_str()) {
                Some(i) => *i,
                None => {
                    let i = self.gems.len();
                    self.gems.push(GemEntry::new());
                    self.names.push(name.clone());
                    self.index.insert(name.clone(), i);
                    proof {
                        assert forall|nm: Seq<char>| #[trigger] self.index@.contains_key(nm) implies (self.index@[nm] as int) < self.gems@.len()
                            && self.names@[self.index@[nm] as int]@ == nm by {
                            if nm != name@ {
                                assert(before_view.contains_key(nm));
                            }
                        }
                        assert forall|t: int| 0 <= t < self.names@.len() implies #[trigger] self.index@.contains_key(self.names@[t]@)
                            && self.index@[self.names@[t]@] == t by {
                            if t < i {
                                assert(self.names@[t] == before_names[t]);
                            }
                        }
                        assert forall|t: int| 0 <= t < self.gems@.len() implies (#[trigger] self.gems@[t]).wf() by {
                            if t < i {
                                assert(self.gems@[t] == before_gems[t]);
                            }
                        }
                    }
                    i
                },
            };
            let ghost mid_gems = self.gems@;
            let ghost mid_view = self.gems_view();
            let mut g = GemEntry::new();
            std::mem::swap(&mut g, &mut self.gems[idx]);
            g.add_path(path);
            self.gems.set(idx, g);
            proof {
                assert(ev.take(k + 1).drop_last() =~= ev.take(k as int));
                assert(ev.take(k + 1).last() == (name@, path@));
                assert forall|t: int| 0 <= t < self.gems@.len() implies (#[trigger] self.gems@[t]).wf() by {
                    if t != idx {
                        assert(self.gems@[t] == mid_gems[t]);
                    }
                }
                let target = add_index_dir(before_view, name@, path@);
                assert forall|nm: Seq<char>| #[trigger] self.gems_view().contains_key(nm) == target.contains_key(nm) by {}
                assert forall|nm: Seq<char>| #[trigger] self.gems_view().contains_key(nm) implies self.gems_view()[nm] == target[nm] by {
                    if nm == name@ {
                        if before_view.contains_key(nm) {
                            assert(mid_gems[idx as int] == before_gems[idx as int]);
                        } else {
                            assert(mid_gems[idx as int].state().0 =~= Seq::<Seq<char>>::empty());
                            assert(self.gems@[idx as int].state().0 =~= seq![path@]);
                        }
                    } else {
                        assert(self.index@[nm] != idx);
                        assert(before_view.contains_key(nm));
                        assert(self.gems@[self.index@[nm] as int] == mid_gems[self.index@[nm] as int]);
                        if self.index@[nm] < before_gems.len() {
                            assert(mid_gems[self.index@[nm] as int] == before_gems[self.index@[nm] as int]);
                        }
                    }
                }
                assert(self.gems_view() =~= target);
            }
            k = k + 1;
        }
        proof {
            assert(ev.take(entries@.len() as int) =~= ev);
        }
    }

    /// The directories registered for gem `name`, for reading its
    /// version listings.
    pub fn gem_dirs_of(&self, name: &str) -> (r: Option<Vec<String>>)
        requires
            self.wf(),
        ensures
            match r {
                Some(d) => self.gems_view().contains_key(name@) && strings_view(d@) == self.gems_view()[name@].0,
                None => !self.gems_view().contains_key(name@),
            },
    {
        match self.index.get(name) {
            Some(i) => Some(self.gems[*i].dir_copies()),
            None => None,
        }
    }

    /// Whether gem `name` is unknown or has its versions loaded.
    pub fn gem_ready(&self, name: &str) -> (b: bool)
        requires
            self.wf(),
        ensures
            b == (!self.gems_view().contains_key(name@) || self.gems_view()[name@].1 is Some),
    {
        match self.index.get(name) {
            Some(i) => self.gems[*i].is_loaded(),
            None => true,
        }
    }

    /// Load gem `name`'s versions from the listings (child directory
    /// names) of its directories, in registration order; a later
    /// directory wins for a version two of them hold. An unknown name
    /// changes nothing.
    pub fn load_gem(&mut self, name: &str, listings: &Vec<Vec<String>>)
        requires
            old(self).wf(),
            old(self).gems_view().contains_key(name@) ==> listings@.len() == old(self).gems_view()[name@].0.len(),
        ensures
            final(self).wf(),
            final(self).gems_view().dom() == old(self).gems_view().dom(),
            forall|n: Seq<char>| #[trigger] final(self).gems_view().contains_key(n) && n != name@
                ==> final(self).gems_view()[n] == old(self).gems_view()[n],
            final(self).gems_view().contains_key(name@) ==> final(self).gems_view()[name@] == (
                old(self).gems_view()[name@].0,
                Some(version_map(all_release_entries(old(self).gems_view()[name@].0, listings_view(listings@)))),
            ),
    {
        match self.index.get(name) {
            Some(i) => {
                let i = *i;
                let ghost before = self.gems@;
                let mut g = GemEntry::new();
                std::mem::swap(&mut g, &mut self.gems[i]);
                g.load_from(listings);
                self.gems.set(i, g);
                proof {
                    assert forall|t: int| 0 <= t < self.gems@.len() implies (#[trigger] self.gems@[t]).wf() by {
                        if t != i {
                            assert(self.gems@[t] == before[t]);
                        }
                    }
                    assert(self.gems_view().dom() =~= old(self).gems_view().dom());
                    assert forall|n: Seq<char>| #[trigger] self.gems_view().contains_key(n) && n != name@
                        implies self.gems_view()[n] == old(self).gems_view()[n] by {
                        assert(self.index@[n] != i);
                        assert(self.gems@[self.index@[n] as int] == before[self.index@[n] as int]);
                    }
                }
            },
            None => {},
        }
    }

    /// What `RBS::Repository#lookup(gem, version)` returns for a
    /// gem whose versions are loaded: `None` for an unknown gem, a gem
    /// without versions, or a version string with no numeric lead;
    /// otherwise the directory of the highest version (no version asked),
    /// of the highest version not above the requested release, or of
    /// the lowest version when all are above it.
    pub fn lookup(&self, name: &str, version: Option<&str>) -> (r: Option<String>)
        requires
            self.wf(),
            self.gems_view().contains_key(name@) ==> self.gems_view()[name@].1 is Some,
        ensures
            ({
                let asked = match version { Some(v) => Some(v@), None => None };
                match r {
                    Some(p) => self.gems_view().contains_key(name@)
                        && index_lookup(self.gems_view()[name@].1->0, asked) == Some(p@),
                    None => !self.gems_view().contains_key(name@)
                        || index_lookup(self.gems_view()[name@].1->0, asked).is_none(),
                }
            }),
    {
        let i = match self.index.get(name) {
            Some(i) => *i,
            None => return None,
        };
        let g = &self.gems[i];
        proof {
            self.lemma_canonical_states();
            assert(self.gems_view().contains_key(name@));
        }
        let ghost m = self.gems_view()[name@].1->0;
        let found = match version {
            None => g.latest(),
            Some(v) => {
                let req = match Version::parse_request(v) {
                    Some(req) => req,
                    None => return None,
                };
                g.best_for(&req)
            },
        };
        proof {
            match found {
                Some(p) => {
                    match version {
                        None => {
                            let k = choose|k: Seq<u64>| is_highest(m, k) && m[k] == p@;
                            let c = choose|k: Seq<u64>| is_highest(m, k);
                            lemma_unique_choices(m, k, k, c);
                        },
                        Some(v) => {
                            let req = request_components(v@)->0;
                            if exists|k: Seq<u64>| #[trigger] m.contains_key(k) && version_le(k, req) {
                                let k = choose|k: Seq<u64>| is_best_below(m, req, k) && m[k] == p@;
                                let c = choose|k: Seq<u64>| is_best_below(m, req, k);
                                lemma_unique_choices(m, req, k, c);
                            } else {
                                let k = choose|k: Seq<u64>| is_lowest(m, k) && m[k] == p@;
                                let c = choose|k: Seq<u64>| is_lowest(m, k);
                                lemma_unique_choices(m, k, k, c);
                            }
                        },
                    }
                },
                None => {},
            }
        }
        match found {
            Some(p) => Some(p.clone()),
            None => None,
        }
    }
}

} // verus!
