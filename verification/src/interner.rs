use vstd::prelude::*;
use vstd::string::*;
use crate::text::push_char;
use vstd::hash_map::StringHashMap;
use std::collections::HashMap;
use vstd::arithmetic::div_mod::lemma_fundamental_div_mod_converse;

verus! {

/// Interned string symbol.
#[derive(Debug, Clone, Copy, PartialEq, Eq, Hash, Structural)]
pub struct Sym(pub u32);

/// Interned namespace = `(path, absolute)`.
#[derive(Debug, Clone, Copy, PartialEq, Eq, Hash, Structural)]
pub struct NamespaceSym(pub u32);

/// Interned `TypeName`. Hash-consed over `(namespace, name, kind)`.
#[derive(Debug, Clone, Copy, PartialEq, Eq, Hash, Structural)]
pub struct TypeNameSym(pub u32);

/// The three kinds of RBS type names, told apart by the first character.
#[derive(Debug, Clone, Copy, PartialEq, Eq, Hash, Structural)]
pub enum TypeNameKind {
    Class,
    Interface,
    TypeAlias,
}

pub open spec fn is_ascii_upper(c: char) -> bool {
    'A' <= c <= 'Z'
}

pub open spec fn is_ascii_lower(c: char) -> bool {
    'a' <= c <= 'z'
}

/// The kind RBS gives a type name spelled `name`: an upper-case initial
/// makes a class name, `_` an interface name, a lower-case initial a type
/// alias name; anything else (including the empty name) counts as a class.
pub open spec fn kind_of_name(name: Seq<char>) -> TypeNameKind {
    if name.len() == 0 {
        TypeNameKind::Class
    } else if is_ascii_upper(name[0]) {
        TypeNameKind::Class
    } else if name[0] == '_' {
        TypeNameKind::Interface
    } else if is_ascii_lower(name[0]) {
        TypeNameKind::TypeAlias
    } else {
        TypeNameKind::Class
    }
}

impl TypeNameKind {
    /// Mirror RBS::TypeName kind detection.
    pub fn detect(name: &str) -> (kind: TypeNameKind)
        ensures
            kind == kind_of_name(name@),
    {
        let mut it = name.chars();
        let first = it.next();
        match first {
            Some(c) => {
                if 'A' <= c && c <= 'Z' {
                    TypeNameKind::Class
                } else if c == '_' {
                    TypeNameKind::Interface
                } else if 'a' <= c && c <= 'z' {
                    TypeNameKind::TypeAlias
                } else {
                    TypeNameKind::Class
                }
            },
            None => TypeNameKind::Class,
        }
    }
}

/// Hash-consing table for strings: each distinct string gets the next
/// index, and the same string always maps back to its first index.
pub struct SymbolInterner {
    map: StringHashMap<Sym>,
    rev: Vec<String>,
}

impl View for SymbolInterner {
    type V = Seq<Seq<char>>;

    /// The interned strings, indexed by symbol number.
    closed spec fn view(&self) -> Seq<Seq<char>> {
        Seq::new(self.rev@.len(), |i: int| self.rev@[i]@)
    }
}

impl SymbolInterner {
    /// Internal consistency: the map sends each interned string to its
    /// index and holds nothing else.
    pub closed spec fn wf(&self) -> bool {
        &&& self.rev@.len() <= u32::MAX as int + 1
        &&& forall|i: int|
            0 <= i < self.rev@.len() ==> #[trigger] self.map@.contains_key(self.rev@[i]@)
                && self.map@[self.rev@[i]@] == Sym(i as u32)
        &&& forall|k: Seq<char>|
            #[trigger] self.map@.contains_key(k) ==> (self.map@[k].0 as int) < self.rev@.len()
                && self.rev@[self.map@[k].0 as int]@ == k
    }

    /// No string is interned twice.
    pub proof fn lemma_distinct(&self)
        requires
            self.wf(),
        ensures
            self@.no_duplicates(),
    {
        assert forall|i: int, j: int|
            0 <= i < self@.len() && 0 <= j < self@.len() && i != j implies self@[i] != self@[j] by {
            assert(self.map@.contains_key(self.rev@[i]@));
            assert(self.map@.contains_key(self.rev@[j]@));
        }
    }

    pub fn new() -> (r: Self)
        ensures
            r.wf(),
            r@ == Seq::<Seq<char>>::empty(),
    {
        let r = SymbolInterner { map: StringHashMap::new(), rev: Vec::new() };
        assert(r@ =~= Seq::<Seq<char>>::empty());
        r
    }

    /// The symbol of `s`, interning it first when it is new.
    pub fn intern(&mut self, s: &str) -> (sym: Sym)
        requires
            old(self).wf(),
            old(self)@.len() < u32::MAX,
        ensures
            final(self).wf(),
            final(self)@ == (if old(self)@.contains(s@) {
                old(self)@
            } else {
                old(self)@.push(s@)
            }),
            (sym.0 as int) < final(self)@.len(),
            final(self)@[sym.0 as int] == s@,
            sym.0 == interned_number(old(self)@, s@),
    {
        let sym = self.intern_new_or_found(s);
        proof {
            self.lemma_distinct();
            lemma_interned_number(old(self)@, self@, s@, sym.0 as int);
        }
        sym
    }

    fn intern_new_or_found(&mut self, s: &str) -> (sym: Sym)
        requires
            old(self).wf(),
            old(self)@.len() < u32::MAX,
        ensures
            final(self).wf(),
            final(self)@ == (if old(self)@.contains(s@) {
                old(self)@
            } else {
                old(self)@.push(s@)
            }),
            (sym.0 as int) < final(self)@.len(),
            final(self)@[sym.0 as int] == s@,
    {
        match self.map.get(s) {
            Some(sym) => {
                let sym = *sym;
                proof {
                    assert(self@[sym.0 as int] == s@);
                }
                sym
            },
            None => {
                let ghost old_view = self@;
                let sym = Sym(self.rev.len() as u32);
                let owned = s.to_owned();
                self.rev.push(owned);
                let key = s.to_owned();
                self.map.insert(key, sym);
                proof {
                    assert(!old_view.contains(s@)) by {
                        if old_view.contains(s@) {
                            let i = choose|i: int| 0 <= i < old_view.len() && old_view[i] == s@;
                            assert(self.map@.contains_key(self.rev@[i]@));
                        }
                    }
                    assert(self@ =~= old_view.push(s@));
                    assert forall|k: Seq<char>| #[trigger] self.map@.contains_key(k) implies (
                    self.map@[k].0 as int) < self.rev@.len() && self.rev@[self.map@[k].0 as int]@
                        == k by {
                        if k != s@ {
                            assert(old(self).map@.contains_key(k));
                        }
                    }
                }
                sym
            },
        }
    }

    /// The symbol of `s` when it has been interned (nothing is added).
    pub fn find(&self, s: &str) -> (r: Option<Sym>)
        requires
            self.wf(),
        ensures
            match r {
                Some(sym) => (sym.0 as int) < self@.len() && self@[sym.0 as int] == s@,
                None => !self@.contains(s@),
            },
    {
        match self.map.get(s) {
            Some(sym) => Some(*sym),
            None => {
                proof {
                    if self@.contains(s@) {
                        let i = choose|i: int| 0 <= i < self@.len() && self@[i] == s@;
                        assert(self.map@.contains_key(self.rev@[i]@));
                    }
                }
                None
            },
        }
    }

    pub fn lookup(&self, sym: Sym) -> (s: &str)
        requires
            (sym.0 as int) < self@.len(),
        ensures
            s@ == self@[sym.0 as int],
    {
        self.rev[sym.0 as usize].as_str()
    }

    pub fn len(&self) -> (n: usize)
        ensures
            n == self@.len(),
    {
        self.rev.len()
    }

    pub fn is_empty(&self) -> (b: bool)
        ensures
            b == (self@.len() == 0),
    {
        self.rev.len() == 0
    }
}

/// The modulus of the namespace bucket hash (a prime just below 2^32).
pub open spec fn bucket_modulus() -> int {
    4294967291
}

/// Bucket number of a namespace `(path, absolute)` in the namespace
/// interner's hash table.
pub open spec fn namespace_hash(path: Seq<Sym>, absolute: bool) -> int
    decreases path.len(),
{
    if path.len() == 0 {
        if absolute {
            1
        } else {
            0
        }
    } else {
        (namespace_hash(path.drop_last(), absolute) * 31 + path.last().0 + 1) % bucket_modulus()
    }
}

proof fn lemma_namespace_hash_bound(path: Seq<Sym>, absolute: bool)
    ensures
        0 <= namespace_hash(path, absolute) < bucket_modulus(),
    decreases path.len(),
{
    if path.len() > 0 {
        lemma_namespace_hash_bound(path.drop_last(), absolute);
    }
}

fn hash_namespace(path: &[Sym], absolute: bool) -> (h: u64)
    ensures
        h as int == namespace_hash(path@, absolute),
{
    let mut h: u64 = if absolute {
        1
    } else {
        0
    };
    let mut i: usize = 0;
    proof {
        assert(path@.take(0) =~= Seq::<Sym>::empty());
    }
    while i < path.len()
        invariant
            i <= path@.len(),
            h as int == namespace_hash(path@.take(i as int), absolute),
            h < 4294967291,
        decreases path.len() - i,
    {
        proof {
            assert(path@.take(i + 1).drop_last() =~= path@.take(i as int));
        }
        h = (h * 31 + path[i].0 as u64 + 1) % 4294967291;
        i = i + 1;
    }
    proof {
        assert(path@.take(path@.len() as int) =~= path@);
    }
    h
}

/// Whether two symbol paths are equal, compared element by element.
pub fn syms_eq(a: &[Sym], b: &[Sym]) -> (r: bool)
    ensures
        r == (a@ == b@),
{
    if a.len() != b.len() {
        return false;
    }
    let mut i: usize = 0;
    while i < a.len()
        invariant
            i <= a@.len(),
            a@.len() == b@.len(),
            forall|j: int| 0 <= j < i ==> a@[j] == b@[j],
        decreases a.len() - i,
    {
        if a[i] != b[i] {
            return false;
        }
        i = i + 1;
    }
    proof {
        assert(a@ =~= b@);
    }
    true
}

fn copy_syms(path: &[Sym]) -> (v: Vec<Sym>)
    ensures
        v@ == path@,
{
    let mut v: Vec<Sym> = Vec::new();
    let mut i: usize = 0;
    while i < path.len()
        invariant
            i <= path@.len(),
            v@ == path@.take(i as int),
        decreases path.len() - i,
    {
        v.push(path[i]);
        proof {
            assert(path@.take(i + 1) =~= path@.take(i as int).push(path@[i as int]));
        }
        i = i + 1;
    }
    proof {
        assert(path@.take(path@.len() as int) =~= path@);
    }
    v
}

/// Hash-consing table for namespaces `(path, absolute)`. Index 0 is the
/// empty relative namespace and index 1 the absolute root.
pub struct NamespaceInterner {
    buckets: HashMap<u64, Vec<u32>>,
    rev: Vec<(Vec<Sym>, bool)>,
}

impl View for NamespaceInterner {
    type V = Seq<(Seq<Sym>, bool)>;

    /// The interned namespaces, indexed by namespace number.
    closed spec fn view(&self) -> Seq<(Seq<Sym>, bool)> {
        Seq::new(self.rev@.len(), |i: int| (self.rev@[i].0@, self.rev@[i].1))
    }
}

impl NamespaceInterner {
    closed spec fn wf_table(&self) -> bool {
        &&& self.rev@.len() <= u32::MAX as int + 1
        &&& self@.no_duplicates()
        &&& forall|i: int|
            0 <= i < self@.len() ==> {
                let h = namespace_hash(#[trigger] self@[i].0, self@[i].1) as u64;
                self.buckets@.contains_key(h) && self.buckets@[h]@.contains(i as u32)
            }
        &&& forall|k: u64, j: int|
            #[trigger] self.buckets@.contains_key(k) && 0 <= j < self.buckets@[k]@.len() ==> {
                let id = #[trigger] self.buckets@[k]@[j];
                &&& (id as int) < self@.len()
                &&& namespace_hash(self@[id as int].0, self@[id as int].1) == k
            }
    }

    /// Internal consistency, with the two fixed entries in place.
    pub closed spec fn wf(&self) -> bool {
        &&& self.wf_table()
        &&& self@.len() >= 2
        &&& self@[0] == (Seq::<Sym>::empty(), false)
        &&& self@[1] == (Seq::<Sym>::empty(), true)
    }

    /// No namespace is interned twice.
    pub proof fn lemma_distinct(&self)
        requires
            self.wf(),
        ensures
            self@.no_duplicates(),
    {
    }

    fn find_index(&self, path: &[Sym], absolute: bool) -> (r: Option<u32>)
        requires
            self.wf_table(),
        ensures
            match r {
                Some(id) => (id as int) < self@.len() && self@[id as int] == (path@, absolute),
                None => !self@.contains((path@, absolute)),
            },
    {
        broadcast use vstd::std_specs::hash::group_hash_axioms;

        let h = hash_namespace(path, absolute);
        match self.buckets.get(&h) {
            Some(bucket) => {
                let mut j: usize = 0;
                while j < bucket.len()
                    invariant
                        self.wf_table(),
                        self.buckets@.contains_key(h),
                        self.buckets@[h] == *bucket,
                        h as int == namespace_hash(path@, absolute),
                        j <= bucket@.len(),
                        forall|t: int| 0 <= t < j ==> self@[bucket@[t] as int] != (path@, absolute),
                    decreases bucket.len() - j,
                {
                    let id = bucket[j];
                    assert(self.buckets@[h]@[j as int] == id);
                    let entry = &self.rev[id as usize];
                    if entry.1 == absolute && syms_eq(entry.0.as_slice(), path) {
                        return Some(id);
                    }
                    j = j + 1;
                }
                proof {
                    if self@.contains((path@, absolute)) {
                        let i = choose|i: int| 0 <= i < self@.len() && self@[i] == (path@, absolute);
                        assert(self@[i].0 == path@);
                        assert(self.buckets@[h]@.contains(i as u32));
                        let t = choose|t: int| 0 <= t < bucket@.len() && bucket@[t] == i as u32;
                        assert(self@[bucket@[t] as int] != (path@, absolute));
                    }
                }
                None
            },
            None => {
                proof {
                    if self@.contains((path@, absolute)) {
                        let i = choose|i: int| 0 <= i < self@.len() && self@[i] == (path@, absolute);
                        assert(self@[i].0 == path@);
                    }
                }
                None
            },
        }
    }

    fn intern_owned(&mut self, path: Vec<Sym>, absolute: bool) -> (ns: NamespaceSym)
        requires
            old(self).wf_table(),
            old(self)@.len() < u32::MAX,
        ensures
            final(self).wf_table(),
            final(self)@ == (if old(self)@.contains((path@, absolute)) {
                old(self)@
            } else {
                old(self)@.push((path@, absolute))
            }),
            (ns.0 as int) < final(self)@.len(),
            final(self)@[ns.0 as int] == (path@, absolute),
    {
        broadcast use vstd::std_specs::hash::group_hash_axioms;

        match self.find_index(path.as_slice(), absolute) {
            Some(id) => NamespaceSym(id),
            None => {
                let ghost old_view = self@;
                let h = hash_namespace(path.as_slice(), absolute);
                let id = self.rev.len() as u32;
                let mut bucket = match self.buckets.remove(&h) {
                    Some(b) => b,
                    None => Vec::new(),
                };
                let ghost mid = self.buckets@;
                bucket.push(id);
                self.buckets.insert(h, bucket);
                self.rev.push((path, absolute));
                proof {
                    assert(self@ =~= old_view.push((path@, absolute)));
                    let new_view = self@;
                    assert forall|i: int| 0 <= i < new_view.len() implies {
                        let hh = namespace_hash(#[trigger] new_view[i].0, new_view[i].1) as u64;
                        self.buckets@.contains_key(hh) && self.buckets@[hh]@.contains(i as u32)
                    } by {
                        let hh = namespace_hash(new_view[i].0, new_view[i].1) as u64;
                        if i < old_view.len() {
                            assert(new_view[i] == old_view[i]);
                            assert(old(self).buckets@[hh]@.contains(i as u32));
                            if hh == h {
                                let t = choose|t: int|
                                    0 <= t < old(self).buckets@[hh]@.len()
                                        && old(self).buckets@[hh]@[t] == i as u32;
                                assert(self.buckets@[hh]@[t] == i as u32);
                            }
                        } else {
                            assert(self.buckets@[h]@[self.buckets@[h]@.len() - 1] == id);
                        }
                    }
                    assert forall|k: u64, j: int|
                        #[trigger] self.buckets@.contains_key(k) && 0 <= j
                            < self.buckets@[k]@.len() implies {
                        let idx = #[trigger] self.buckets@[k]@[j];
                        &&& (idx as int) < new_view.len()
                        &&& namespace_hash(new_view[idx as int].0, new_view[idx as int].1) == k
                    } by {
                        let idx = self.buckets@[k]@[j];
                        if k == h {
                            if j < self.buckets@[k]@.len() - 1 {
                                assert(old(self).buckets@.contains_key(k));
                                assert(old(self).buckets@[k]@[j] == idx);
                            }
                        } else {
                            assert(old(self).buckets@.contains_key(k));
                            assert(old(self).buckets@[k]@[j] == idx);
                        }
                    }
                }
                NamespaceSym(id)
            },
        }
    }

    pub fn new() -> (r: Self)
        ensures
            r.wf(),
            r@ == seq![(Seq::<Sym>::empty(), false), (Seq::<Sym>::empty(), true)],
    {
        let mut this = NamespaceInterner { buckets: HashMap::new(), rev: Vec::new() };
        proof {
            assert(this@ =~= Seq::<(Seq<Sym>, bool)>::empty());
        }
        // index 0 = relative empty
        this.intern_owned(Vec::new(), false);
        // index 1 = absolute root
        this.intern_owned(Vec::new(), true);
        proof {
            assert(this@ =~= seq![(Seq::<Sym>::empty(), false), (Seq::<Sym>::empty(), true)]);
        }
        this
    }

    /// Intern a namespace from a borrowed slice.
    pub fn intern(&mut self, path: &[Sym], absolute: bool) -> (ns: NamespaceSym)
        requires
            old(self).wf(),
            old(self)@.len() < u32::MAX,
        ensures
            final(self).wf(),
            final(self)@ == (if old(self)@.contains((path@, absolute)) {
                old(self)@
            } else {
                old(self)@.push((path@, absolute))
            }),
            (ns.0 as int) < final(self)@.len(),
            final(self)@[ns.0 as int] == (path@, absolute),
            ns.0 == interned_number(old(self)@, (path@, absolute)),
    {
        let owned = copy_syms(path);
        let ns = self.intern_owned(owned, absolute);
        proof {
            self.lemma_distinct();
            lemma_interned_number(old(self)@, self@, (path@, absolute), ns.0 as int);
        }
        ns
    }

    /// The namespace `(path, absolute)` when it has been interned.
    pub fn find(&self, path: &[Sym], absolute: bool) -> (r: Option<NamespaceSym>)
        requires
            self.wf(),
        ensures
            match r {
                Some(ns) => (ns.0 as int) < self@.len() && self@[ns.0 as int] == (path@, absolute),
                None => !self@.contains((path@, absolute)),
            },
    {
        match self.find_index(path, absolute) {
            Some(id) => Some(NamespaceSym(id)),
            None => None,
        }
    }

    pub fn empty_relative(&self) -> (ns: NamespaceSym)
        requires
            self.wf(),
        ensures
            ns.0 == 0,
            self@[ns.0 as int] == (Seq::<Sym>::empty(), false),
    {
        NamespaceSym(0)
    }

    pub fn root_absolute(&self) -> (ns: NamespaceSym)
        requires
            self.wf(),
        ensures
            ns.0 == 1,
            self@[ns.0 as int] == (Seq::<Sym>::empty(), true),
    {
        NamespaceSym(1)
    }

    pub fn lookup(&self, ns: NamespaceSym) -> (r: &(Vec<Sym>, bool))
        requires
            (ns.0 as int) < self@.len(),
        ensures
            (r.0@, r.1) == self@[ns.0 as int],
    {
        &self.rev[ns.0 as usize]
    }

    pub fn len(&self) -> (n: usize)
        ensures
            n == self@.len(),
    {
        self.rev.len()
    }

    /// Whether the namespace has no path segments.
    pub fn is_empty(&self, ns: NamespaceSym) -> (b: bool)
        requires
            (ns.0 as int) < self@.len(),
        ensures
            b == (self@[ns.0 as int].0.len() == 0),
    {
        self.rev[ns.0 as usize].0.len() == 0
    }

    /// Whether the namespace is relative (not anchored at the root).
    pub fn is_relative(&self, ns: NamespaceSym) -> (b: bool)
        requires
            (ns.0 as int) < self@.len(),
        ensures
            b == !self@[ns.0 as int].1,
    {
        !self.rev[ns.0 as usize].1
    }

    /// `RBS::Namespace#append`: returns the namespace `ns` with `seg`
    /// appended at the end.
    pub fn append(&mut self, ns: NamespaceSym, seg: Sym) -> (r: NamespaceSym)
        requires
            old(self).wf(),
            (ns.0 as int) < old(self)@.len(),
            old(self)@.len() < u32::MAX,
        ensures
            final(self).wf(),
            ({
                let target = (old(self)@[ns.0 as int].0.push(seg), old(self)@[ns.0 as int].1);
                &&& final(self)@ == (if old(self)@.contains(target) {
                    old(self)@
                } else {
                    old(self)@.push(target)
                })
                &&& (r.0 as int) < final(self)@.len()
                &&& final(self)@[r.0 as int] == target
            }),
    {
        let entry = &self.rev[ns.0 as usize];
        let mut new_path = copy_syms(entry.0.as_slice());
        let abs = entry.1;
        new_path.push(seg);
        self.intern_owned(new_path, abs)
    }

    /// Join two namespaces with the same asymmetric rule as
    /// `std::path::Path::join` (and `RBS::Namespace#+`): if `rhs` is
    /// absolute, it replaces `lhs` entirely; otherwise the paths are
    /// concatenated and the result keeps `lhs`'s absolute flag.
    pub fn join(&mut self, lhs: NamespaceSym, rhs: NamespaceSym) -> (r: NamespaceSym)
        requires
            old(self).wf(),
            (lhs.0 as int) < old(self)@.len(),
            (rhs.0 as int) < old(self)@.len(),
            old(self)@.len() < u32::MAX,
        ensures
            final(self).wf(),
            ({
                let target = join_namespaces(old(self)@[lhs.0 as int], old(self)@[rhs.0 as int]);
                &&& final(self)@ == (if old(self)@.contains(target) {
                    old(self)@
                } else {
                    old(self)@.push(target)
                })
                &&& (r.0 as int) < final(self)@.len()
                &&& final(self)@[r.0 as int] == target
            }),
    {
        if self.rev[rhs.0 as usize].1 {
            proof {
                assert(old(self)@.contains(old(self)@[rhs.0 as int]));
            }
            return rhs;
        }
        let mut path = copy_syms(self.rev[lhs.0 as usize].0.as_slice());
        let labs = self.rev[lhs.0 as usize].1;
        let mut k: usize = 0;
        let ghost lpath = path@;
        let rlen = self.rev[rhs.0 as usize].0.len();
        while k < rlen
            invariant
                (rhs.0 as int) < self@.len(),
                rlen == self@[rhs.0 as int].0.len(),
                k <= rlen,
                path@ == lpath + self@[rhs.0 as int].0.take(k as int),
            decreases rlen - k,
        {
            path.push(self.rev[rhs.0 as usize].0[k]);
            proof {
                assert(self@[rhs.0 as int].0.take(k + 1) =~= self@[rhs.0 as int].0.take(
                    k as int,
                ).push(self@[rhs.0 as int].0[k as int]));
            }
            k = k + 1;
        }
        proof {
            assert(self@[rhs.0 as int].0.take(rlen as int) =~= self@[rhs.0 as int].0);
        }
        self.intern_owned(path, labs)
    }
}

/// `RBS::Namespace#+`: an absolute right-hand side wins; otherwise the
/// paths concatenate and the left absolute flag is kept.
pub open spec fn join_namespaces(lhs: (Seq<Sym>, bool), rhs: (Seq<Sym>, bool)) -> (Seq<Sym>, bool) {
    if rhs.1 {
        rhs
    } else {
        (lhs.0 + rhs.0, lhs.1)
    }
}

/// The laws of namespace joining: the empty relative namespace is a
/// two-sided identity, joining is associative, and an absolute namespace
/// on the right replaces whatever stands on the left.
pub proof fn lemma_join_namespaces_laws(a: (Seq<Sym>, bool), b: (Seq<Sym>, bool), c: (Seq<Sym>, bool))
    ensures
        join_namespaces((Seq::<Sym>::empty(), false), a) == a,
        join_namespaces(a, (Seq::<Sym>::empty(), false)) == a,
        join_namespaces(join_namespaces(a, b), c) == join_namespaces(a, join_namespaces(b, c)),
        c.1 ==> join_namespaces(a, c) == c,
{
    assert(Seq::<Sym>::empty() + a.0 =~= a.0);
    assert(a.0 + Seq::<Sym>::empty() =~= a.0);
    assert(a.0 + b.0 + c.0 =~= a.0 + (b.0 + c.0));
}

pub open spec fn kind_code(kind: TypeNameKind) -> int {
    match kind {
        TypeNameKind::Class => 0,
        TypeNameKind::Interface => 1,
        TypeNameKind::TypeAlias => 2,
    }
}

/// The hash key under which `(namespace, name, kind)` is stored.
pub open spec fn type_name_key(entry: (NamespaceSym, Sym, TypeNameKind)) -> int {
    kind_code(entry.2) + 4 * (entry.1.0 + 4294967296 * entry.0.0)
}

proof fn lemma_type_name_key_injective(
    a: (NamespaceSym, Sym, TypeNameKind),
    b: (NamespaceSym, Sym, TypeNameKind),
)
    requires
        type_name_key(a) == type_name_key(b),
    ensures
        a == b,
{
    let x = type_name_key(a);
    let qa = a.1.0 + 4294967296 * a.0.0;
    let qb = b.1.0 + 4294967296 * b.0.0;
    lemma_fundamental_div_mod_converse(x, 4, qa, kind_code(a.2));
    lemma_fundamental_div_mod_converse(x, 4, qb, kind_code(b.2));
    lemma_fundamental_div_mod_converse(qa, 4294967296, a.0.0 as int, a.1.0 as int);
    lemma_fundamental_div_mod_converse(qb, 4294967296, b.0.0 as int, b.1.0 as int);
    assert(a.2 == b.2);
}

fn type_name_key_exec(ns: NamespaceSym, name: Sym, kind: TypeNameKind) -> (k: u128)
    ensures
        k as int == type_name_key((ns, name, kind)),
{
    let code: u128 = match kind {
        TypeNameKind::Class => 0,
        TypeNameKind::Interface => 1,
        TypeNameKind::TypeAlias => 2,
    };
    code + 4 * (name.0 as u128 + 4294967296 * ns.0 as u128)
}

/// Interned type names together with the string and namespace tables
/// they are built from.
pub struct TypeNameInterner {
    pub symbols: SymbolInterner,
    pub namespaces: NamespaceInterner,
    map: HashMap<u128, u32>,
    rev: Vec<(NamespaceSym, Sym, TypeNameKind)>,
}

impl View for TypeNameInterner {
    type V = Seq<(NamespaceSym, Sym, TypeNameKind)>;

    /// The interned type names `(namespace, name, kind)`, indexed by number.
    closed spec fn view(&self) -> Seq<(NamespaceSym, Sym, TypeNameKind)> {
        self.rev@
    }
}

/// `a` is `b` or grows into it by appending.
pub open spec fn grows_to<T>(a: Seq<T>, b: Seq<T>) -> bool {
    a.is_prefix_of(b)
}

impl TypeNameInterner {
    /// The interned strings.
    pub closed spec fn syms(&self) -> Seq<Seq<char>> {
        self.symbols@
    }

    /// The interned namespaces.
    pub closed spec fn spaces(&self) -> Seq<(Seq<Sym>, bool)> {
        self.namespaces@
    }

    /// Internal consistency of the three tables, and every reference
    /// between them points at an existing entry.
    pub closed spec fn wf(&self) -> bool {
        &&& self.symbols.wf()
        &&& self.namespaces.wf()
        &&& self.rev@.len() <= u32::MAX as int + 1
        &&& forall|i: int|
            0 <= i < self.rev@.len() ==> #[trigger] self.map@.contains_key(
                type_name_key(self.rev@[i]) as u128,
            ) && self.map@[type_name_key(self.rev@[i]) as u128] == i as u32
        &&& forall|k: u128|
            #[trigger] self.map@.contains_key(k) ==> (self.map@[k] as int) < self.rev@.len()
                && type_name_key(self.rev@[self.map@[k] as int]) == k
        &&& forall|i: int| 0 <= i < self.rev@.len() ==> self.valid_entry(#[trigger] self.rev@[i])
        &&& forall|n: int| 0 <= n < self.spaces().len() ==> self.valid_path(#[trigger] self.spaces()[n].0)
    }

    /// Every segment of `path` is an interned symbol.
    pub open spec fn valid_path(&self, path: Seq<Sym>) -> bool {
        forall|j: int| 0 <= j < path.len() ==> (#[trigger] path[j].0 as int) < self.syms().len()
    }

    /// The namespace and name of `entry` are interned.
    pub open spec fn valid_entry(&self, entry: (NamespaceSym, Sym, TypeNameKind)) -> bool {
        &&& (entry.0.0 as int) < self.spaces().len()
        &&& (entry.1.0 as int) < self.syms().len()
    }

    /// Everything `old` had interned keeps its number in `self`.
    pub open spec fn extends(&self, old: &Self) -> bool {
        &&& grows_to(old.syms(), self.syms())
        &&& grows_to(old.spaces(), self.spaces())
        &&& grows_to(old@, self@)
    }

    /// Entries added so far over all three tables; every number must fit
    /// in a `u32`, so interning needs this to stay below `u32::MAX`.
    pub open spec fn used(&self) -> int {
        (self.syms().len() + self.spaces().len() + self@.len()) as int
    }

    /// No type name is interned twice.
    pub proof fn lemma_distinct(&self)
        requires
            self.wf(),
        ensures
            self@.no_duplicates(),
    {
        assert forall|i: int, j: int|
            0 <= i < self@.len() && 0 <= j < self@.len() && i != j implies self@[i] != self@[j] by {
            assert(self.map@.contains_key(type_name_key(self.rev@[i]) as u128));
            assert(self.map@.contains_key(type_name_key(self.rev@[j]) as u128));
        }
    }

    pub fn new() -> (r: Self)
        ensures
            r.wf(),
            r.syms() == Seq::<Seq<char>>::empty(),
            r.spaces() == seq![(Seq::<Sym>::empty(), false), (Seq::<Sym>::empty(), true)],
            r@ == Seq::<(NamespaceSym, Sym, TypeNameKind)>::empty(),
    {
        TypeNameInterner {
            symbols: SymbolInterner::new(),
            namespaces: NamespaceInterner::new(),
            map: HashMap::new(),
            rev: Vec::new(),
        }
    }

    /// The number of `(namespace, name, kind)` when it has been interned.
    pub fn find(&self, namespace: NamespaceSym, name: Sym, kind: TypeNameKind) -> (r: Option<
        TypeNameSym,
    >)
        requires
            self.wf(),
        ensures
            match r {
                Some(tn) => (tn.0 as int) < self@.len() && self@[tn.0 as int] == (
                    namespace,
                    name,
                    kind,
                ),
                None => !self@.contains((namespace, name, kind)),
            },
    {
        broadcast use vstd::std_specs::hash::group_hash_axioms;

        let key = type_name_key_exec(namespace, name, kind);
        match self.map.get(&key) {
            Some(id) => {
                let id = *id;
                proof {
                    lemma_type_name_key_injective(self.rev@[id as int], (namespace, name, kind));
                }
                Some(TypeNameSym(id))
            },
            None => {
                proof {
                    if self@.contains((namespace, name, kind)) {
                        let i = choose|i: int|
                            0 <= i < self@.len() && self@[i] == (namespace, name, kind);
                        assert(self.map@.contains_key(type_name_key(self.rev@[i]) as u128));
                    }
                }
                None
            },
        }
    }

    pub fn intern(&mut self, namespace: NamespaceSym, name: Sym, kind: TypeNameKind) -> (tn:
        TypeNameSym)
        requires
            old(self).wf(),
            (namespace.0 as int) < old(self).spaces().len(),
            (name.0 as int) < old(self).syms().len(),
            old(self)@.len() < u32::MAX,
        ensures
            final(self).wf(),
            final(self).syms() == old(self).syms(),
            final(self).spaces() == old(self).spaces(),
            final(self)@ == (if old(self)@.contains((namespace, name, kind)) {
                old(self)@
            } else {
                old(self)@.push((namespace, name, kind))
            }),
            (tn.0 as int) < final(self)@.len(),
            final(self)@[tn.0 as int] == (namespace, name, kind),
            tn.0 == interned_number(old(self)@, (namespace, name, kind)),
    {
        let tn = self.intern_entry(namespace, name, kind);
        proof {
            self.lemma_distinct();
            lemma_interned_number(old(self)@, self@, (namespace, name, kind), tn.0 as int);
        }
        tn
    }

    fn intern_entry(&mut self, namespace: NamespaceSym, name: Sym, kind: TypeNameKind) -> (tn:
        TypeNameSym)
        requires
            old(self).wf(),
            (namespace.0 as int) < old(self).spaces().len(),
            (name.0 as int) < old(self).syms().len(),
            old(self)@.len() < u32::MAX,
        ensures
            final(self).wf(),
            final(self).syms() == old(self).syms(),
            final(self).spaces() == old(self).spaces(),
            final(self)@ == (if old(self)@.contains((namespace, name, kind)) {
                old(self)@
            } else {
                old(self)@.push((namespace, name, kind))
            }),
            (tn.0 as int) < final(self)@.len(),
            final(self)@[tn.0 as int] == (namespace, name, kind),
    {
        broadcast use vstd::std_specs::hash::group_hash_axioms;

        match self.find(namespace, name, kind) {
            Some(tn) => tn,
            None => {
                let key = type_name_key_exec(namespace, name, kind);
                let tn = TypeNameSym(self.rev.len() as u32);
                let ghost old_rev = self.rev@;
                self.rev.push((namespace, name, kind));
                self.map.insert(key, tn.0);
                proof {
                    assert forall|i: int| 0 <= i < self.rev@.len() implies #[trigger] self.map@.contains_key(
                        type_name_key(self.rev@[i]) as u128,
                    ) && self.map@[type_name_key(self.rev@[i]) as u128] == i as u32 by {
                        if i < old_rev.len() {
                            assert(old(self).map@.contains_key(type_name_key(old_rev[i]) as u128));
                            if type_name_key(old_rev[i]) == key {
                                lemma_type_name_key_injective(old_rev[i], (namespace, name, kind));
                                assert(old_rev.contains((namespace, name, kind)));
                            }
                        }
                    }
                    assert forall|k: u128| #[trigger] self.map@.contains_key(k) implies (
                    self.map@[k] as int) < self.rev@.len() && type_name_key(
                        self.rev@[self.map@[k] as int],
                    ) == k by {
                        if k != key {
                            assert(old(self).map@.contains_key(k));
                        }
                    }
                }
                tn
            },
        }
    }

    pub fn lookup(&self, tn: TypeNameSym) -> (r: (NamespaceSym, Sym, TypeNameKind))
        requires
            (tn.0 as int) < self@.len(),
        ensures
            r == self@[tn.0 as int],
    {
        self.rev[tn.0 as usize]
    }

    pub fn len(&self) -> (n: usize)
        ensures
            n == self@.len(),
    {
        self.rev.len()
    }

    /// Entries added so far over all three tables.
    pub fn used_count(&self) -> (n: u64)
        requires
            self.wf(),
        ensures
            n as int == self.used(),
    {
        let a = self.symbols.len() as u64;
        let b = self.namespaces.len() as u64;
        let c = self.rev.len() as u64;
        a + b + c
    }

    pub fn name_of(&self, tn: TypeNameSym) -> (r: Sym)
        requires
            (tn.0 as int) < self@.len(),
        ensures
            r == self@[tn.0 as int].1,
    {
        self.lookup(tn).1
    }

    pub fn namespace_of(&self, tn: TypeNameSym) -> (r: NamespaceSym)
        requires
            (tn.0 as int) < self@.len(),
        ensures
            r == self@[tn.0 as int].0,
    {
        self.lookup(tn).0
    }

    pub fn kind_of(&self, tn: TypeNameSym) -> (r: TypeNameKind)
        requires
            (tn.0 as int) < self@.len(),
        ensures
            r == self@[tn.0 as int].2,
    {
        self.lookup(tn).2
    }

    /// The interned symbol of `s`, interning it when new.
    pub fn intern_symbol(&mut self, s: &str) -> (sym: Sym)
        requires
            old(self).wf(),
            old(self).syms().len() < u32::MAX,
        ensures
            final(self).wf(),
            final(self).syms() == (if old(self).syms().contains(s@) {
                old(self).syms()
            } else {
                old(self).syms().push(s@)
            }),
            final(self).spaces() == old(self).spaces(),
            final(self)@ == old(self)@,
            (sym.0 as int) < final(self).syms().len(),
            final(self).syms()[sym.0 as int] == s@,
    {
        let sym = self.symbols.intern(s);
        proof {
            assert forall|n: int| 0 <= n < self.spaces().len() implies self.valid_path(
                #[trigger] self.spaces()[n].0,
            ) by {
                assert(old(self).valid_path(old(self).spaces()[n].0));
            }
            assert forall|i: int| 0 <= i < self.rev@.len() implies self.valid_entry(
                #[trigger] self.rev@[i],
            ) by {
                assert(old(self).valid_entry(old(self).rev@[i]));
            }
        }
        sym
    }

    /// The symbol of `s` when it has been interned.
    pub fn find_symbol(&self, s: &str) -> (r: Option<Sym>)
        requires
            self.wf(),
        ensures
            match r {
                Some(sym) => (sym.0 as int) < self.syms().len() && self.syms()[sym.0 as int] == s@,
                None => !self.syms().contains(s@),
            },
    {
        self.symbols.find(s)
    }

    pub fn symbol(&self, sym: Sym) -> (s: &str)
        requires
            (sym.0 as int) < self.syms().len(),
        ensures
            s@ == self.syms()[sym.0 as int],
    {
        self.symbols.lookup(sym)
    }

    /// The namespace `(path, absolute)`, interning it when new.
    pub fn intern_namespace(&mut self, path: &[Sym], absolute: bool) -> (ns: NamespaceSym)
        requires
            old(self).wf(),
            old(self).valid_path(path@),
            old(self).spaces().len() < u32::MAX,
        ensures
            final(self).wf(),
            final(self).syms() == old(self).syms(),
            final(self).spaces() == (if old(self).spaces().contains((path@, absolute)) {
                old(self).spaces()
            } else {
                old(self).spaces().push((path@, absolute))
            }),
            final(self)@ == old(self)@,
            (ns.0 as int) < final(self).spaces().len(),
            final(self).spaces()[ns.0 as int] == (path@, absolute),
    {
        let ns = self.namespaces.intern(path, absolute);
        proof {
            assert forall|n: int| 0 <= n < self.spaces().len() implies self.valid_path(
                #[trigger] self.spaces()[n].0,
            ) by {
                if n < old(self).spaces().len() {
                    assert(old(self).valid_path(old(self).spaces()[n].0));
                }
            }
            assert forall|i: int| 0 <= i < self.rev@.len() implies self.valid_entry(
                #[trigger] self.rev@[i],
            ) by {
                assert(old(self).valid_entry(old(self).rev@[i]));
            }
        }
        ns
    }

    /// The namespace `(path, absolute)` when it has been interned.
    pub fn find_namespace(&self, path: &[Sym], absolute: bool) -> (r: Option<NamespaceSym>)
        requires
            self.wf(),
        ensures
            match r {
                Some(ns) => (ns.0 as int) < self.spaces().len() && self.spaces()[ns.0 as int] == (
                    path@,
                    absolute,
                ),
                None => !self.spaces().contains((path@, absolute)),
            },
    {
        self.namespaces.find(path, absolute)
    }

    pub fn namespace(&self, ns: NamespaceSym) -> (r: &(Vec<Sym>, bool))
        requires
            (ns.0 as int) < self.spaces().len(),
        ensures
            (r.0@, r.1) == self.spaces()[ns.0 as int],
    {
        self.namespaces.lookup(ns)
    }

    pub fn empty_relative(&self) -> (ns: NamespaceSym)
        requires
            self.wf(),
        ensures
            ns.0 == 0,
            (ns.0 as int) < self.spaces().len(),
            self.spaces()[ns.0 as int] == (Seq::<Sym>::empty(), false),
    {
        self.namespaces.empty_relative()
    }

    pub fn root_absolute(&self) -> (ns: NamespaceSym)
        requires
            self.wf(),
        ensures
            (ns.0 as int) < self.spaces().len(),
            self.spaces()[ns.0 as int] == (Seq::<Sym>::empty(), true),
    {
        self.namespaces.root_absolute()
    }

    /// Reading the tables through `self` shows their consistency facts.
    pub proof fn lemma_wf_facts(&self)
        requires
            self.wf(),
        ensures
            self@.no_duplicates(),
            self.syms().no_duplicates(),
            self.spaces().no_duplicates(),
            self.spaces().len() >= 2,
            self.spaces()[0] == (Seq::<Sym>::empty(), false),
            self.spaces()[1] == (Seq::<Sym>::empty(), true),
            forall|i: int| 0 <= i < self@.len() ==> self.valid_entry(#[trigger] self@[i]),
            forall|n: int| 0 <= n < self.spaces().len() ==> self.valid_path(#[trigger] self.spaces()[n].0),
            self.spaces().len() <= u32::MAX as int + 1,
            self@.len() <= u32::MAX as int + 1,
    {
        self.lemma_distinct();
        self.symbols.lemma_distinct();
        self.namespaces.lemma_distinct();
    }

    /// `RBS::TypeName#with_prefix(namespace)` =
    /// `TypeName.new(namespace: namespace + self.namespace, name: self.name)`.
    pub fn with_prefix(&mut self, prefix: NamespaceSym, inner: TypeNameSym) -> (r: TypeNameSym)
        requires
            old(self).wf(),
            (prefix.0 as int) < old(self).spaces().len(),
            (inner.0 as int) < old(self)@.len(),
            old(self).spaces().len() < u32::MAX,
            old(self)@.len() < u32::MAX,
        ensures
            final(self).wf(),
            final(self).extends(old(self)),
            final(self).syms() == old(self).syms(),
            final(self).spaces().len() <= old(self).spaces().len() + 1,
            final(self)@.len() <= old(self)@.len() + 1,
            (r.0 as int) < final(self)@.len(),
            final(self)@[r.0 as int].1 == old(self)@[inner.0 as int].1,
            final(self)@[r.0 as int].2 == old(self)@[inner.0 as int].2,
            final(self).spaces()[final(self)@[r.0 as int].0.0 as int] == join_namespaces(
                old(self).spaces()[prefix.0 as int],
                old(self).spaces()[old(self)@[inner.0 as int].0.0 as int],
            ),
    {
        let (inner_ns, inner_name, inner_kind) = self.lookup(inner);
        proof {
            assert(self.valid_entry(self.rev@[inner.0 as int]));
        }
        let combined = self.namespaces.join(prefix, inner_ns);
        proof {
            assert forall|n: int| 0 <= n < self.spaces().len() implies self.valid_path(
                #[trigger] self.spaces()[n].0,
            ) by {
                if n < old(self).spaces().len() {
                    assert(old(self).valid_path(old(self).spaces()[n].0));
                } else {
                    assert(old(self).valid_path(old(self).spaces()[prefix.0 as int].0));
                    assert(old(self).valid_path(old(self).spaces()[inner_ns.0 as int].0));
                }
            }
            assert forall|i: int| 0 <= i < self.rev@.len() implies self.valid_entry(
                #[trigger] self.rev@[i],
            ) by {
                assert(old(self).valid_entry(old(self).rev@[i]));
            }
            assert(old(self).spaces().is_prefix_of(self.spaces()));
        }
        let r = self.intern(combined, inner_name, inner_kind);
        proof {
            assert(old(self)@.is_prefix_of(self@));
        }
        r
    }

    /// `RBS::TypeName#to_namespace` = `namespace.append(name)`.
    #[verifier::spinoff_prover]
    pub fn to_namespace(&mut self, tn: TypeNameSym) -> (r: NamespaceSym)
        requires
            old(self).wf(),
            (tn.0 as int) < old(self)@.len(),
            old(self).spaces().len() < u32::MAX,
        ensures
            final(self).wf(),
            final(self).extends(old(self)),
            final(self).syms() == old(self).syms(),
            final(self)@ == old(self)@,
            final(self).spaces().len() <= old(self).spaces().len() + 1,
            (r.0 as int) < final(self).spaces().len(),
            final(self).spaces()[r.0 as int] == namespace_of_type_name(
                old(self).spaces(),
                old(self)@[tn.0 as int],
            ),
    {
        let (ns, name, _) = self.lookup(tn);
        proof {
            assert(self.valid_entry(self.rev@[tn.0 as int]));
        }
        let r = self.namespaces.append(ns, name);
        proof {
            assert(self.rev == old(self).rev);
            assert(self.map == old(self).map);
            assert(self.symbols == old(self).symbols);
            assert forall|n: int| 0 <= n < self.spaces().len() implies self.valid_path(
                #[trigger] self.spaces()[n].0,
            ) by {
                if n < old(self).spaces().len() {
                    assert(old(self).valid_path(old(self).spaces()[n].0));
                } else {
                    assert(old(self).valid_path(old(self).spaces()[ns.0 as int].0));
                }
            }
            assert forall|i: int| 0 <= i < self.rev@.len() implies self.valid_entry(
                #[trigger] self.rev@[i],
            ) by {
                assert(old(self).valid_entry(old(self).rev@[i]));
            }
            assert(old(self).spaces().is_prefix_of(self.spaces()));
            assert(old(self).syms().is_prefix_of(self.syms()));
            assert(old(self)@.is_prefix_of(self@));
        }
        r
    }

    /// The namespace `tn` names (its namespace with its name appended),
    /// when that namespace has been interned.
    pub fn find_to_namespace(&self, tn: TypeNameSym) -> (r: Option<NamespaceSym>)
        requires
            self.wf(),
            (tn.0 as int) < self@.len(),
        ensures
            match r {
                Some(ns) => (ns.0 as int) < self.spaces().len() && self.spaces()[ns.0 as int]
                    == namespace_of_type_name(self.spaces(), self@[tn.0 as int]),
                None => !self.spaces().contains(
                    namespace_of_type_name(self.spaces(), self@[tn.0 as int]),
                ),
            },
    {
        let (ns, name, _) = self.lookup(tn);
        proof {
            assert(self.valid_entry(self.rev@[tn.0 as int]));
        }
        let entry = self.namespaces.lookup(ns);
        let mut path = copy_syms(entry.0.as_slice());
        path.push(name);
        self.namespaces.find(path.as_slice(), entry.1)
    }

    /// The type name `with_prefix(prefix, inner)` would give, when every
    /// part of it has been interned already.
    pub fn find_with_prefix(&self, prefix: NamespaceSym, inner: TypeNameSym) -> (r: Option<
        TypeNameSym,
    >)
        requires
            self.wf(),
            (prefix.0 as int) < self.spaces().len(),
            (inner.0 as int) < self@.len(),
        ensures
            ({
                let target = join_namespaces(
                    self.spaces()[prefix.0 as int],
                    self.spaces()[self@[inner.0 as int].0.0 as int],
                );
                match r {
                    Some(t) => (t.0 as int) < self@.len() && self@[t.0 as int].1 == self@[inner.0 as int].1
                        && self@[t.0 as int].2 == self@[inner.0 as int].2
                        && self.spaces()[self@[t.0 as int].0.0 as int] == target,
                    None => forall|t: int|
                        0 <= t < self@.len() ==> !(#[trigger] self@[t].1 == self@[inner.0 as int].1
                            && self@[t].2 == self@[inner.0 as int].2 && self.spaces()[self@[t].0.0 as int]
                            == target),
                }
            }),
    {
        let (inner_ns, inner_name, inner_kind) = self.lookup(inner);
        proof {
            assert(self.valid_entry(self.rev@[inner.0 as int]));
        }
        let rentry = self.namespaces.lookup(inner_ns);
        let combined = if rentry.1 {
            inner_ns
        } else {
            let lentry = self.namespaces.lookup(prefix);
            let mut path = copy_syms(lentry.0.as_slice());
            let rlen = rentry.0.len();
            let mut k: usize = 0;
            let ghost lpath = path@;
            while k < rlen
                invariant
                    rlen == rentry.0@.len(),
                    k <= rlen,
                    path@ == lpath + rentry.0@.take(k as int),
                decreases rlen - k,
            {
                path.push(rentry.0[k]);
                proof {
                    assert(rentry.0@.take(k + 1) =~= rentry.0@.take(k as int).push(
                        rentry.0@[k as int],
                    ));
                }
                k = k + 1;
            }
            proof {
                assert(rentry.0@.take(rlen as int) =~= rentry.0@);
            }
            match self.namespaces.find(path.as_slice(), lentry.1) {
                Some(ns) => ns,
                None => {
                    proof {
                        self.lemma_wf_facts();
                        assert forall|t: int| 0 <= t < self@.len() implies !(
                        #[trigger] self@[t].1 == inner_name && self@[t].2 == inner_kind
                            && self.spaces()[self@[t].0.0 as int] == (path@, lentry.1)) by {
                            assert(self.valid_entry(self@[t]));
                        }
                    }
                    return None;
                },
            }
        };
        proof {
            self.lemma_wf_facts();
        }
        match self.find(combined, inner_name, inner_kind) {
            Some(t) => Some(t),
            None => {
                proof {
                    let target = self.spaces()[combined.0 as int];
                    assert forall|t: int| 0 <= t < self@.len() implies !(
                    #[trigger] self@[t].1 == inner_name && self@[t].2 == inner_kind
                        && self.spaces()[self@[t].0.0 as int] == target) by {
                        assert(self.valid_entry(self@[t]));
                        if self@[t].1 == inner_name && self@[t].2 == inner_kind
                            && self.spaces()[self@[t].0.0 as int] == target {
                            assert(self@[t].0 == combined);
                            assert(self@[t] == (combined, inner_name, inner_kind));
                        }
                    }
                }
                None
            },
        }
    }

    /// `namespace.to_type_name`: the parent namespace and the last segment
    /// of `ns`, when `ns` is not empty and its parent has been interned.
    pub fn namespace_to_type_name(&self, ns: NamespaceSym) -> (r: Option<(NamespaceSym, Sym)>)
        requires
            self.wf(),
            (ns.0 as int) < self.spaces().len(),
        ensures
            ({
                let (path, abs) = self.spaces()[ns.0 as int];
                match r {
                    Some((parent, last)) => path.len() > 0 && last == path.last() && (parent.0 as int)
                        < self.spaces().len() && self.spaces()[parent.0 as int] == (
                        path.drop_last(),
                        abs,
                    ),
                    None => path.len() == 0 || !self.spaces().contains((path.drop_last(), abs)),
                }
            }),
    {
        let entry = self.namespaces.lookup(ns);
        let n = entry.0.len();
        if n == 0 {
            return None;
        }
        let last = entry.0[n - 1];
        let mut parent_path = copy_syms(entry.0.as_slice());
        parent_path.pop();
        proof {
            assert(parent_path@ =~= entry.0@.drop_last());
        }
        match self.namespaces.find(parent_path.as_slice(), entry.1) {
            Some(p) => Some((p, last)),
            None => None,
        }
    }

    /// The namespace has no path segments.
    pub fn is_empty_namespace(&self, ns: NamespaceSym) -> (b: bool)
        requires
            (ns.0 as int) < self.spaces().len(),
        ensures
            b == (self.spaces()[ns.0 as int].0.len() == 0),
    {
        self.namespaces.is_empty(ns)
    }

    /// The namespace is relative.
    pub fn is_relative_namespace(&self, ns: NamespaceSym) -> (b: bool)
        requires
            (ns.0 as int) < self.spaces().len(),
        ensures
            b == !self.spaces()[ns.0 as int].1,
    {
        self.namespaces.is_relative(ns)
    }

    /// The printed form of `tn`: `::` when absolute, each namespace
    /// segment followed by `::`, then the name.
    pub fn to_string(&self, tn: TypeNameSym) -> (s: String)
        requires
            self.wf(),
            (tn.0 as int) < self@.len(),
        ensures
            s@ == type_name_text(self.syms(), self.spaces(), self@[tn.0 as int]),
    {
        let (ns, name, _) = self.lookup(tn);
        proof {
            assert(self.valid_entry(self.rev@[tn.0 as int]));
            self.lemma_wf_facts();
        }
        let entry = self.namespaces.lookup(ns);
        proof {
            assert(self.valid_path(self.spaces()[ns.0 as int].0));
        }
        let mut out = String::new();
        if entry.1 {
            push_char(&mut out, ':');
            push_char(&mut out, ':');
        }
        let ghost lead = out@;
        let mut i: usize = 0;
        proof {
            assert(entry.0@.take(0) =~= Seq::<Sym>::empty());
        }
        while i < entry.0.len()
            invariant
                self.wf(),
                self.valid_path(entry.0@),
                i <= entry.0@.len(),
                out@ == lead + path_text(self.syms(), entry.0@.take(i as int)),
            decreases entry.0.len() - i,
        {
            let seg = entry.0[i];
            out.append(self.symbols.lookup(seg));
            push_char(&mut out, ':');
            push_char(&mut out, ':');
            proof {
                assert(entry.0@.take(i + 1).drop_last() =~= entry.0@.take(i as int));
                assert(out@ =~= lead + path_text(self.syms(), entry.0@.take(i + 1)));
            }
            i = i + 1;
        }
        proof {
            assert(entry.0@.take(entry.0@.len() as int) =~= entry.0@);
        }
        out.append(self.symbols.lookup(name));
        proof {
            let (path, abs) = self.spaces()[ns.0 as int];
            let prefix: Seq<char> = if abs { seq![':', ':'] } else { Seq::empty() };
            assert(lead =~= prefix);
            assert(out@ =~= prefix + path_text(self.syms(), path) + self.syms()[name.0 as int]);
        }
        out
    }

}

/// The namespace a type name stands for: its namespace with its own name
/// appended (`RBS::TypeName#to_namespace`).
pub open spec fn namespace_of_type_name(
    spaces: Seq<(Seq<Sym>, bool)>,
    entry: (NamespaceSym, Sym, TypeNameKind),
) -> (Seq<Sym>, bool) {
    let (path, abs) = spaces[entry.0.0 as int];
    (path.push(entry.1), abs)
}

/// Each segment's text followed by `::`.
pub open spec fn path_text(syms: Seq<Seq<char>>, path: Seq<Sym>) -> Seq<char>
    decreases path.len(),
{
    if path.len() == 0 {
        Seq::empty()
    } else {
        path_text(syms, path.drop_last()) + syms[path.last().0 as int] + seq![':', ':']
    }
}

/// The printed form of a type name entry.
pub open spec fn type_name_text(
    syms: Seq<Seq<char>>,
    spaces: Seq<(Seq<Sym>, bool)>,
    entry: (NamespaceSym, Sym, TypeNameKind),
) -> Seq<char> {
    let (path, abs) = spaces[entry.0.0 as int];
    let lead: Seq<char> = if abs {
        seq![':', ':']
    } else {
        Seq::empty()
    };
    lead + path_text(syms, path) + syms[entry.1.0 as int]
}

/// The number namespace `v` is interned under, if it is interned.
pub open spec fn namespace_id(spaces: Seq<(Seq<Sym>, bool)>, v: (Seq<Sym>, bool)) -> Option<NamespaceSym> {
    if spaces.contains(v) {
        Some(NamespaceSym(spaces.index_of(v) as u32))
    } else {
        None
    }
}

/// The number type name `e` is interned under, if it is interned.
pub open spec fn type_name_id(
    names: Seq<(NamespaceSym, Sym, TypeNameKind)>,
    e: (NamespaceSym, Sym, TypeNameKind),
) -> Option<TypeNameSym> {
    if names.contains(e) {
        Some(TypeNameSym(names.index_of(e) as u32))
    } else {
        None
    }
}

/// In a sequence without duplicates, an element's index is where it
/// stands.
pub proof fn lemma_index_of_at<T>(s: Seq<T>, i: int)
    requires
        s.no_duplicates(),
        0 <= i < s.len(),
    ensures
        s.contains(s[i]),
        s.index_of(s[i]) == i,
{
    assert(s.contains(s[i]));
    let j = s.index_of(s[i]);
    assert(0 <= j < s.len() && s[j] == s[i]);
}

/// The number interning `x` into table `t` gives: the number it already
/// has, or the next free one.
pub open spec fn interned_number<T>(t: Seq<T>, x: T) -> int {
    if t.contains(x) {
        t.index_of(x)
    } else {
        t.len() as int
    }
}

/// A table without duplicates that holds `x` at `i` after interning `x`
/// into `old` holds it at [`interned_number`].
pub proof fn lemma_interned_number<T>(old: Seq<T>, new: Seq<T>, x: T, i: int)
    requires
        new.no_duplicates(),
        new == (if old.contains(x) {
            old
        } else {
            old.push(x)
        }),
        0 <= i < new.len(),
        new[i] == x,
    ensures
        i == interned_number(old, x),
{
    lemma_index_of_at(new, i);
    if !old.contains(x) && i < old.len() {
        assert(old[i] == new[i]);
        assert(old.contains(x));
    }
}

impl TypeNameInterner {
    /// A found namespace number is the one [`namespace_id`] names.
    pub proof fn lemma_namespace_id(&self, ns: NamespaceSym)
        requires
            self.wf(),
            (ns.0 as int) < self.spaces().len(),
        ensures
            namespace_id(self.spaces(), self.spaces()[ns.0 as int]) == Some(ns),
    {
        self.lemma_wf_facts();
        lemma_index_of_at(self.spaces(), ns.0 as int);
    }

    /// A found type-name number is the one [`type_name_id`] names.
    pub proof fn lemma_type_name_id(&self, tn: TypeNameSym)
        requires
            self.wf(),
            (tn.0 as int) < self@.len(),
        ensures
            type_name_id(self@, self@[tn.0 as int]) == Some(tn),
    {
        self.lemma_wf_facts();
        lemma_index_of_at(self@, tn.0 as int);
    }
}

/// A type name spelled out: namespace segment texts, whether it is
/// absolute, name text, kind.
pub type NameValue = (Seq<Seq<char>>, bool, Seq<char>, TypeNameKind);

/// The texts of a path's segments.
pub open spec fn path_texts(syms: Seq<Seq<char>>, path: Seq<Sym>) -> Seq<Seq<char>> {
    path.map_values(|s: Sym| syms[s.0 as int])
}

/// What interned type name `t` spells.
pub open spec fn name_value(it: TypeNameInterner, t: TypeNameSym) -> NameValue {
    let (ns, name, kind) = it@[t.0 as int];
    let (path, abs) = it.spaces()[ns.0 as int];
    (path_texts(it.syms(), path), abs, it.syms()[name.0 as int], kind)
}

/// Some interned type name spells `v`.
pub open spec fn value_interned(it: TypeNameInterner, v: NameValue) -> bool {
    exists|t: TypeNameSym| (t.0 as int) < it@.len() && #[trigger] name_value(it, t) == v
}

impl TypeNameInterner {
    /// Interning more never changes what an interned number spells.
    pub proof fn lemma_value_stable(&self, old: &Self, t: TypeNameSym)
        requires
            old.wf(),
            self.extends(old),
            (t.0 as int) < old@.len(),
        ensures
            (t.0 as int) < self@.len(),
            name_value(*self, t) == name_value(*old, t),
    {
        old.lemma_wf_facts();
        let e = old@[t.0 as int];
        assert(old.valid_entry(e));
        assert(self@[t.0 as int] == e);
        assert(self.spaces()[e.0.0 as int] == old.spaces()[e.0.0 as int]);
        let path = old.spaces()[e.0.0 as int].0;
        assert(old.valid_path(path));
        assert(path_texts(self.syms(), path) =~= path_texts(old.syms(), path)) by {
            assert forall|j: int| 0 <= j < path.len() implies self.syms()[path[j].0 as int] == old.syms()[path[j].0 as int] by {
                assert((path[j].0 as int) < old.syms().len());
            }
        }
    }

    /// A value interned stays interned.
    pub proof fn lemma_value_interned_stable(&self, old: &Self, v: NameValue)
        requires
            old.wf(),
            self.extends(old),
            value_interned(*old, v),
        ensures
            value_interned(*self, v),
    {
        let t = choose|t: TypeNameSym| (t.0 as int) < old@.len() && #[trigger] name_value(*old, t) == v;
        self.lemma_value_stable(old, t);
    }

    /// Different interned numbers spell different names.
    pub proof fn lemma_value_injective(&self, a: TypeNameSym, b: TypeNameSym)
        requires
            self.wf(),
            (a.0 as int) < self@.len(),
            (b.0 as int) < self@.len(),
            name_value(*self, a) == name_value(*self, b),
        ensures
            a == b,
    {
        self.lemma_wf_facts();
        let ea = self@[a.0 as int];
        let eb = self@[b.0 as int];
        assert(self.valid_entry(ea));
        assert(self.valid_entry(eb));
        let syms = self.syms();
        assert(syms[ea.1.0 as int] == syms[eb.1.0 as int]);
        assert(ea.1.0 == eb.1.0);
        let pa = self.spaces()[ea.0.0 as int];
        let pb = self.spaces()[eb.0.0 as int];
        assert(self.valid_path(pa.0));
        assert(self.valid_path(pb.0));
        assert(path_texts(syms, pa.0).len() == path_texts(syms, pb.0).len());
        assert(pa.0 =~= pb.0) by {
            assert forall|j: int| 0 <= j < pa.0.len() implies pa.0[j] == pb.0[j] by {
                assert(path_texts(syms, pa.0)[j] == path_texts(syms, pb.0)[j]);
                assert((pa.0[j].0 as int) < syms.len());
                assert((pb.0[j].0 as int) < syms.len());
            }
        }
        assert(ea.0 == eb.0);
        assert(ea == eb);
    }
}

} // verus!
