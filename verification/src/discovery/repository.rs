use std::cmp::Ordering;
use vstd::prelude::*;
use vstd::std_specs::cmp::PartialOrdSpecImpl;
use vstd::hash_map::StringHashMap;

use crate::paths::{join, join_path};
use crate::text::{all_digits, chars_of, decimal_value, parse_u64, split_chars, split_on, u64_text};

verus! {

/// A semver-ish version: dot-separated numeric segments.
#[derive(Debug, Clone, PartialEq, Eq)]
pub struct Version {
    pub segments: Vec<u64>,
}

/// A piece that `Version::parse` accepts: one or more ASCII digits whose
/// value fits in a `u64`.
pub open spec fn numeric_piece(piece: Seq<char>) -> bool {
    piece.len() > 0 && all_digits(piece) && decimal_value(piece) <= u64::MAX
}

/// The segments `Version::parse` reads from `s`: `None` for the empty
/// string or when some dot-separated piece is not a plain number.
pub open spec fn version_segments(s: Seq<char>) -> Option<Seq<u64>> {
    let parts = split_on(s, '.');
    if s.len() > 0 && forall|i: int| 0 <= i < parts.len() ==> numeric_piece(#[trigger] parts[i]) {
        Some(Seq::new(parts.len(), |i: int| decimal_value(parts[i]) as u64))
    } else {
        None
    }
}

/// The `i`-th segment, with missing segments read as zero.
pub open spec fn segment_at(s: Seq<u64>, i: int) -> int {
    if 0 <= i < s.len() {
        s[i] as int
    } else {
        0
    }
}

/// Segment-wise comparison from position `i` on, padding the shorter
/// sequence with zeros.
pub open spec fn compare_segments_from(a: Seq<u64>, b: Seq<u64>, i: int) -> Ordering
    decreases a.len() + b.len() - i,
{
    if i < 0 || (i >= a.len() && i >= b.len()) {
        Ordering::Equal
    } else if segment_at(a, i) < segment_at(b, i) {
        Ordering::Less
    } else if segment_at(a, i) > segment_at(b, i) {
        Ordering::Greater
    } else {
        compare_segments_from(a, b, i + 1)
    }
}

/// Version order: segment by segment, missing segments count as zero,
/// so `1.2` and `1.2.0` are equal.
pub open spec fn compare_segments(a: Seq<u64>, b: Seq<u64>) -> Ordering {
    compare_segments_from(a, b, 0)
}

/// The opposite ordering (`Ordering::reverse`).
pub open spec fn reversed(o: Ordering) -> Ordering {
    match o {
        Ordering::Less => Ordering::Greater,
        Ordering::Equal => Ordering::Equal,
        Ordering::Greater => Ordering::Less,
    }
}

/// `a` is ordered at or below `b`.
pub open spec fn version_le(a: Seq<u64>, b: Seq<u64>) -> bool {
    compare_segments(a, b) != Ordering::Greater
}

/// `a` is ordered strictly below `b`.
pub open spec fn version_lt(a: Seq<u64>, b: Seq<u64>) -> bool {
    compare_segments(a, b) == Ordering::Less
}

/// `a` and `b` are the same version (trailing zeros aside).
pub open spec fn version_eq(a: Seq<u64>, b: Seq<u64>) -> bool {
    compare_segments(a, b) == Ordering::Equal
}

/// Exactly one of `a < b`, `a == b`, `b < a` holds in version order.
pub proof fn lemma_version_total(a: Seq<u64>, b: Seq<u64>)
    ensures
        version_le(a, b) <==> !version_lt(b, a),
        version_lt(a, b) <==> (version_le(a, b) && !version_eq(a, b)),
        version_eq(a, b) <==> version_eq(b, a),
        version_eq(a, a),
{
    lemma_compare_antisymmetric(a, b);
    lemma_compare_reflexive(a);
}

/// Version order is transitive, strictly so when one step is strict.
pub proof fn lemma_version_transitive(a: Seq<u64>, b: Seq<u64>, c: Seq<u64>)
    ensures
        version_le(a, b) && version_le(b, c) ==> version_le(a, c),
        (version_lt(a, b) && version_le(b, c)) || (version_le(a, b) && version_lt(b, c)) ==> version_lt(a, c),
        version_eq(a, b) && version_eq(b, c) ==> version_eq(a, c),
{
    if version_le(a, b) && version_le(b, c) {
        lemma_compare_transitive(a, b, c);
    }
}

proof fn lemma_compare_from_reflexive(a: Seq<u64>, i: int)
    ensures
        compare_segments_from(a, a, i) == Ordering::Equal,
    decreases a.len() + a.len() - i,
{
    if !(i < 0 || i >= a.len()) {
        lemma_compare_from_reflexive(a, i + 1);
    }
}

proof fn lemma_compare_from_swap(a: Seq<u64>, b: Seq<u64>, i: int)
    ensures
        compare_segments_from(b, a, i) == reversed(compare_segments_from(a, b, i)),
    decreases a.len() + b.len() - i,
{
    if !(i < 0 || (i >= a.len() && i >= b.len())) {
        lemma_compare_from_swap(a, b, i + 1);
    }
}

proof fn lemma_compare_from_transitive(a: Seq<u64>, b: Seq<u64>, c: Seq<u64>, i: int)
    requires
        compare_segments_from(a, b, i) != Ordering::Greater,
        compare_segments_from(b, c, i) != Ordering::Greater,
    ensures
        compare_segments_from(a, c, i) != Ordering::Greater,
        (compare_segments_from(a, b, i) == Ordering::Less || compare_segments_from(b, c, i)
            == Ordering::Less) ==> compare_segments_from(a, c, i) == Ordering::Less,
        (compare_segments_from(a, b, i) == Ordering::Equal && compare_segments_from(b, c, i)
            == Ordering::Equal) ==> compare_segments_from(a, c, i) == Ordering::Equal,
    decreases a.len() + b.len() + c.len() - i,
{
    if i < 0 || (i >= a.len() && i >= b.len() && i >= c.len()) {
    } else {
        if segment_at(a, i) == segment_at(b, i) && segment_at(b, i) == segment_at(c, i) {
            lemma_compare_from_transitive(a, b, c, i + 1);
        }
    }
}

/// Every version is equal to itself in version order.
pub proof fn lemma_compare_reflexive(a: Seq<u64>)
    ensures
        compare_segments(a, a) == Ordering::Equal,
{
    lemma_compare_from_reflexive(a, 0);
}

/// Swapping the operands reverses the comparison.
pub proof fn lemma_compare_antisymmetric(a: Seq<u64>, b: Seq<u64>)
    ensures
        compare_segments(b, a) == reversed(compare_segments(a, b)),
{
    lemma_compare_from_swap(a, b, 0);
}

/// Version order is transitive, strictly so when one step is strict.
pub proof fn lemma_compare_transitive(a: Seq<u64>, b: Seq<u64>, c: Seq<u64>)
    requires
        version_le(a, b),
        version_le(b, c),
    ensures
        version_le(a, c),
        (compare_segments(a, b) == Ordering::Less || compare_segments(b, c) == Ordering::Less)
            ==> compare_segments(a, c) == Ordering::Less,
        (compare_segments(a, b) == Ordering::Equal && compare_segments(b, c) == Ordering::Equal)
            ==> compare_segments(a, c) == Ordering::Equal,
{
    lemma_compare_from_transitive(a, b, c, 0);
}

proof fn lemma_compare_from_zero_padding(a: Seq<u64>, zeros: nat, i: int)
    requires
        i >= 0,
    ensures
        compare_segments_from(a, a + Seq::new(zeros, |j: int| 0u64), i) == Ordering::Equal,
    decreases a.len() + a.len() + zeros - i,
{
    let b = a + Seq::new(zeros, |j: int| 0u64);
    if !(i >= a.len() && i >= b.len()) {
        assert(segment_at(a, i) == segment_at(b, i));
        lemma_compare_from_zero_padding(a, zeros, i + 1);
    }
}

/// Trailing zero segments do not change a version: `1.2` equals `1.2.0`.
pub proof fn lemma_compare_trailing_zeros(a: Seq<u64>, zeros: nat)
    ensures
        compare_segments(a, a + Seq::new(zeros, |j: int| 0u64)) == Ordering::Equal,
{
    lemma_compare_from_zero_padding(a, zeros, 0);
}

proof fn lemma_compare_from_equal_pointwise(a: Seq<u64>, b: Seq<u64>, i: int, j: int)
    requires
        0 <= i <= j,
        compare_segments_from(a, b, i) == Ordering::Equal,
    ensures
        segment_at(a, j) == segment_at(b, j),
    decreases a.len() + b.len() - i,
{
    if i >= a.len() && i >= b.len() {
    } else if i < j {
        lemma_compare_from_equal_pointwise(a, b, i + 1, j);
    }
}

/// Versions that compare equal agree on every segment, missing segments
/// read as zero.
pub proof fn lemma_version_eq_pointwise(a: Seq<u64>, b: Seq<u64>, j: int)
    requires
        version_eq(a, b),
        j >= 0,
    ensures
        segment_at(a, j) == segment_at(b, j),
{
    lemma_compare_from_equal_pointwise(a, b, 0, j);
}

impl Version {
    /// Parse a version string: dot-separated numeric segments. Returns
    /// `None` for strings containing non-numeric or pre-release suffixes.
    pub fn parse(s: &str) -> (r: Option<Self>)
        ensures
            match r {
                Some(v) => version_segments(s@) == Some(v.segments@),
                None => version_segments(s@).is_none(),
            },
    {
        let chars = chars_of(s);
        if chars.len() == 0 {
            return None;
        }
        let parts = split_chars(&chars, '.');
        let ghost spec_parts = split_on(s@, '.');
        let mut segments: Vec<u64> = Vec::new();
        let mut i: usize = 0;
        while i < parts.len()
            invariant
                chars@ == s@,
                s@.len() > 0,
                spec_parts == split_on(s@, '.'),
                parts@.len() == spec_parts.len(),
                forall|j: int| 0 <= j < parts@.len() ==> #[trigger] parts@[j]@ == spec_parts[j],
                i <= parts@.len(),
                segments@.len() == i,
                forall|j: int| 0 <= j < i ==> numeric_piece(#[trigger] spec_parts[j]),
                forall|j: int| 0 <= j < i ==> #[trigger] segments@[j] == decimal_value(spec_parts[j]) as u64,
            decreases parts.len() - i,
        {
            let part = &parts[i];
            let mut all: bool = part.len() > 0;
            let mut k: usize = 0;
            while k < part.len()
                invariant
                    k <= part@.len(),
                    all == (part@.len() > 0 && forall|t: int| 0 <= t < k ==> crate::text::is_digit(#[trigger] part@[t])),
                decreases part.len() - k,
            {
                if !('0' <= part[k] && part[k] <= '9') {
                    all = false;
                }
                k = k + 1;
            }
            if !all {
                proof {
                    assert(!numeric_piece(spec_parts[i as int]));
                }
                return None;
            }
            match parse_u64(part) {
                Some(n) => {
                    segments.push(n);
                },
                None => {
                    proof {
                        assert(!numeric_piece(spec_parts[i as int]));
                    }
                    return None;
                },
            }
            i = i + 1;
        }
        proof {
            assert(segments@ =~= Seq::new(spec_parts.len(), |j: int| decimal_value(spec_parts[j]) as u64));
        }
        Some(Version { segments })
    }

    /// Segment-wise comparison with missing segments read as zero.
    pub fn cmp_segments(&self, other: &Self) -> (r: Ordering)
        ensures
            r == compare_segments(self.segments@, other.segments@),
    {
        let a = &self.segments;
        let b = &other.segments;
        let len = if a.len() > b.len() { a.len() } else { b.len() };
        let mut i: usize = 0;
        let ghost mut gi: int = 0;
        while i < len
            invariant
                len == (if a@.len() > b@.len() { a@.len() } else { b@.len() }),
                i <= len,
                gi == i,
                a@ == self.segments@,
                b@ == other.segments@,
                compare_segments(a@, b@) == compare_segments_from(a@, b@, gi),
            decreases len - i,
        {
            let x: u64 = if i < a.len() { a[i] } else { 0 };
            let y: u64 = if i < b.len() { b[i] } else { 0 };
            assert(x == segment_at(a@, gi) && y == segment_at(b@, gi));
            if x < y {
                return Ordering::Less;
            } else if x > y {
                return Ordering::Greater;
            }
            i = i + 1;
            proof {
                gi = gi + 1;
            }
        }
        Ordering::Equal
    }

    /// Total order on versions (see [`Version::cmp_segments`]).
    pub fn cmp(&self, other: &Self) -> (r: Ordering)
        ensures
            r == compare_segments(self.segments@, other.segments@),
    {
        self.cmp_segments(other)
    }
}

impl PartialOrd for Version {
    fn partial_cmp(&self, other: &Self) -> (r: Option<Ordering>) {
        Some(self.cmp_segments(other))
    }
}

impl PartialOrdSpecImpl for Version {
    open spec fn obeys_partial_cmp_spec() -> bool {
        true
    }

    open spec fn partial_cmp_spec(&self, other: &Self) -> Option<Ordering> {
        Some(compare_segments(self.segments@, other.segments@))
    }
}

/// A version found on disk and the directory that holds it.
#[derive(Debug, Clone)]
pub struct VersionPath {
    pub version: Version,
    pub path: String,
}

impl View for VersionPath {
    type V = (Seq<u64>, Seq<char>);

    open spec fn view(&self) -> (Seq<u64>, Seq<char>) {
        (self.version.segments@, self.path@)
    }
}

pub open spec fn version_paths_view(v: Seq<VersionPath>) -> Seq<(Seq<u64>, Seq<char>)> {
    v.map_values(|x: VersionPath| x@)
}

/// Entries whose version equals `v` in version order.
pub open spec fn same_version(v: Seq<u64>) -> spec_fn((Seq<u64>, Seq<char>)) -> bool {
    |e: (Seq<u64>, Seq<char>)| version_eq(e.0, v)
}

/// `a < b` in version order.
fn version_below(a: &Version, b: &Version) -> (r: bool)
    ensures
        r == version_lt(a.segments@, b.segments@),
{
    match a.cmp_segments(b) {
        Ordering::Less => true,
        _ => false,
    }
}

/// `a > b` in version order.
fn version_above(a: &Version, b: &Version) -> (r: bool)
    ensures
        r == !version_le(a.segments@, b.segments@),
{
    match a.cmp_segments(b) {
        Ordering::Greater => true,
        _ => false,
    }
}

/// Non-decreasing in version order.
pub open spec fn sorted_by_version(s: Seq<(Seq<u64>, Seq<char>)>) -> bool {
    forall|i: int, j: int| 0 <= i < j < s.len() ==> version_le(#[trigger] s[i].0, #[trigger] s[j].0)
}

/// `out` is `input` stably sorted by version: sorted, the same entries,
/// and entries of equal version keep their relative order.
pub open spec fn stably_sorted(
    out: Seq<(Seq<u64>, Seq<char>)>,
    input: Seq<(Seq<u64>, Seq<char>)>,
) -> bool {
    &&& sorted_by_version(out)
    &&& out.to_multiset() == input.to_multiset()
    &&& forall|v: Seq<u64>| #[trigger] out.filter(same_version(v)) == input.filter(same_version(v))
}

proof fn lemma_filter_before_after(
    s: Seq<(Seq<u64>, Seq<char>)>,
    p: int,
    x: (Seq<u64>, Seq<char>),
    v: Seq<u64>,
)
    requires
        0 <= p <= s.len(),
        forall|i: int| 0 <= i < p ==> version_lt(#[trigger] s[i].0, x.0),
    ensures
        s.insert(p, x).filter(same_version(v)) == (if version_eq(x.0, v) {
            seq![x] + s.filter(same_version(v))
        } else {
            s.filter(same_version(v))
        }),
{
    let f = same_version(v);
    let pre = s.take(p);
    let post = s.skip(p);
    assert(s =~= pre + post);
    assert(s.insert(p, x) =~= pre + (seq![x] + post));
    Seq::filter_distributes_over_add(pre, post, f);
    Seq::filter_distributes_over_add(pre, seq![x] + post, f);
    Seq::filter_distributes_over_add(seq![x], post, f);
    reveal_with_fuel(Seq::filter, 2);
    assert(seq![x].drop_last() =~= Seq::<(Seq<u64>, Seq<char>)>::empty());
    if version_eq(x.0, v) {
        assert forall|i: int| 0 <= i < pre.len() implies !f(#[trigger] pre[i]) by {
            lemma_version_total(x.0, v);
            lemma_version_total(pre[i].0, v);
            lemma_version_total(pre[i].0, x.0);
            lemma_version_transitive(pre[i].0, x.0, v);
        }
        lemma_filter_none(pre, f);
    }
}

proof fn lemma_filter_none<A>(s: Seq<A>, f: spec_fn(A) -> bool)
    requires
        forall|i: int| 0 <= i < s.len() ==> !f(#[trigger] s[i]),
    ensures
        s.filter(f) == Seq::<A>::empty(),
    decreases s.len(),
{
    reveal_with_fuel(Seq::filter, 1);
    if s.len() > 0 {
        lemma_filter_none(s.drop_last(), f);
        assert(!f(s[s.len() - 1]));
    }
    assert(s.filter(f) =~= Seq::<A>::empty());
}

/// Sorts by version, keeping entries of equal version in their order.
fn sort_by_version(items: Vec<VersionPath>) -> (out: Vec<VersionPath>)
    ensures
        stably_sorted(version_paths_view(out@), version_paths_view(items@)),
{
    let ghost input = version_paths_view(items@);
    let mut rest = items;
    let mut out: Vec<VersionPath> = Vec::new();
    proof {
        assert(input.skip(input.len() as int) =~= Seq::<(Seq<u64>, Seq<char>)>::empty());
        assert(version_paths_view(out@) =~= Seq::<(Seq<u64>, Seq<char>)>::empty());
        assert(version_paths_view(rest@) =~= input.take(rest@.len() as int));
    }
    while rest.len() > 0
        invariant
            rest@.len() <= input.len(),
            version_paths_view(rest@) == input.take(rest@.len() as int),
            stably_sorted(version_paths_view(out@), input.skip(rest@.len() as int)),
        decreases rest.len(),
    {
        let ghost k = rest@.len() as int;
        let ghost old_rest = rest@;
        let x = rest.pop().unwrap();
        let ghost xv = x@;
        proof {
            assert(version_paths_view(old_rest)[k - 1] == old_rest[k - 1]@);
            assert(xv == input[k - 1]);
            assert(version_paths_view(rest@) =~= input.take(k - 1));
            assert(input.skip(k - 1) =~= seq![xv] + input.skip(k));
        }
        let ghost ov = version_paths_view(out@);
        // first position whose version is not below x
        let mut p: usize = 0;
        let ghost mut gp: int = 0;
        while p < out.len() && version_below(&out[p].version, &x.version)
            invariant
                p <= out@.len(),
                gp == p,
                ov == version_paths_view(out@),
                xv == x@,
                forall|i: int| 0 <= i < p ==> version_lt(#[trigger] ov[i].0, xv.0),
            decreases out.len() - p,
        {
            p = p + 1;
            proof {
                gp = gp + 1;
            }
        }
        out.insert(p, x);
        proof {
            let nv = version_paths_view(out@);
            assert(nv =~= ov.insert(p as int, xv));
            let tail = input.skip(k);
            // sortedness
            assert forall|i: int, j: int| 0 <= i < j < nv.len() implies version_le(
                #[trigger] nv[i].0,
                #[trigger] nv[j].0,
            ) by {
                if j < p {
                    assert(nv[i] == ov[i] && nv[j] == ov[j]);
                } else if j == p {
                    assert(nv[i] == ov[i]);
                } else if i == p {
                    assert(nv[j] == ov[j - 1]);
                    if j - 1 > p {
                        assert(version_le(ov[p as int].0, ov[j - 1].0));
                    }
                    lemma_version_total(ov[p as int].0, xv.0);
                    lemma_version_total(ov[j - 1].0, xv.0);
                    lemma_version_transitive(xv.0, ov[p as int].0, ov[j - 1].0);
                } else if i < p {
                    assert(nv[i] == ov[i] && nv[j] == ov[j - 1]);
                    if j - 1 >= p {
                        lemma_version_total(ov[p as int].0, xv.0);
                        lemma_version_total(ov[i].0, xv.0);
                        if j - 1 > p {
                            assert(version_le(ov[p as int].0, ov[j - 1].0));
                        }
                        lemma_version_transitive(xv.0, ov[p as int].0, ov[j - 1].0);
                        lemma_version_transitive(ov[i].0, xv.0, ov[j - 1].0);
                    }
                } else {
                    assert(nv[i] == ov[i - 1] && nv[j] == ov[j - 1]);
                }
            }
            // same entries
            vstd::seq_lib::to_multiset_insert(ov, gp, xv);
            assert(seq![xv] + tail =~= tail.insert(0, xv));
            vstd::seq_lib::to_multiset_insert(tail, 0, xv);
            // stability
            assert forall|v: Seq<u64>| #[trigger] nv.filter(same_version(v)) == (seq![xv] + tail).filter(
                same_version(v),
            ) by {
                lemma_filter_before_after(ov, gp, xv, v);
                Seq::filter_distributes_over_add(seq![xv], tail, same_version(v));
                reveal_with_fuel(Seq::filter, 2);
                assert(seq![xv].drop_last() =~= Seq::<(Seq<u64>, Seq<char>)>::empty());
            }
        }
    }
    proof {
        assert(input.skip(0) =~= input);
    }
    out
}

/// All versions of one gem, over every repository directory that holds it.
#[derive(Debug)]
pub struct GemRBS {
    pub name: String,
    paths: Vec<String>,
    versions: Option<Vec<VersionPath>>,
}

/// The versions one gem directory contributes: each listed entry name
/// that parses as a version, joined onto the gem directory, in listing
/// order.
pub open spec fn listed_versions(dir: Seq<char>, names: Seq<Seq<char>>) -> Seq<(Seq<u64>, Seq<char>)>
    decreases names.len(),
{
    if names.len() == 0 {
        Seq::empty()
    } else {
        let init = listed_versions(dir, names.drop_last());
        match version_segments(names.last()) {
            Some(v) => init.push((v, join_path(dir, names.last()))),
            None => init,
        }
    }
}

/// The versions all gem directories contribute, directory by directory.
pub open spec fn all_listed_versions(dirs: Seq<Seq<char>>, listings: Seq<Seq<Seq<char>>>) -> Seq<
    (Seq<u64>, Seq<char>),
>
    decreases dirs.len(),
{
    if dirs.len() == 0 || listings.len() == 0 {
        Seq::empty()
    } else {
        all_listed_versions(dirs.drop_last(), listings.drop_last()) + listed_versions(
            dirs.last(),
            listings.last(),
        )
    }
}

pub open spec fn strings_view(v: Seq<String>) -> Seq<Seq<char>> {
    v.map_values(|s: String| s@)
}

pub open spec fn listings_view(v: Seq<Vec<String>>) -> Seq<Seq<Seq<char>>> {
    v.map_values(|l: Vec<String>| strings_view(l@))
}

/// The position `find_best` picks for a requested version: the last of
/// the leading entries that are not above it, or the first entry when
/// even that one is above it.
pub open spec fn leading_not_above(vs: Seq<(Seq<u64>, Seq<char>)>, target: Seq<u64>) -> int
    decreases vs.len(),
{
    if vs.len() == 0 {
        0
    } else if version_le(vs[0].0, target) {
        1 + leading_not_above(vs.drop_first(), target)
    } else {
        0
    }
}

/// Every version in `vs` is at most `v`.
pub open spec fn is_highest(vs: Seq<(Seq<u64>, Seq<char>)>, v: Seq<u64>) -> bool {
    forall|i: int| 0 <= i < vs.len() ==> version_le(#[trigger] vs[i].0, v)
}

/// Every version in `vs` is at least `v`.
pub open spec fn is_lowest(vs: Seq<(Seq<u64>, Seq<char>)>, v: Seq<u64>) -> bool {
    forall|i: int| 0 <= i < vs.len() ==> version_le(v, #[trigger] vs[i].0)
}

/// Some version in `vs` is not above `target`.
pub open spec fn some_not_above(vs: Seq<(Seq<u64>, Seq<char>)>, target: Seq<u64>) -> bool {
    exists|i: int| 0 <= i < vs.len() && version_le(#[trigger] vs[i].0, target)
}

/// `v` is not above `target`, and no version of `vs` that is not above
/// `target` is above `v`: the largest version not above `target`.
pub open spec fn is_best_not_above(vs: Seq<(Seq<u64>, Seq<char>)>, target: Seq<u64>, v: Seq<u64>) -> bool {
    &&& version_le(v, target)
    &&& forall|i: int| 0 <= i < vs.len() && version_le(#[trigger] vs[i].0, target) ==> version_le(vs[i].0, v)
}

/// The last entry of a sorted list is the highest version.
proof fn lemma_sorted_last_highest(vs: Seq<(Seq<u64>, Seq<char>)>)
    requires
        sorted_by_version(vs),
        vs.len() > 0,
    ensures
        is_highest(vs, vs.last().0),
{
    assert forall|i: int| 0 <= i < vs.len() implies version_le(#[trigger] vs[i].0, vs.last().0) by {
        if i == vs.len() - 1 {
            lemma_compare_reflexive(vs[i].0);
        }
    }
}

/// In a sorted list whose first `i` entries are not above `target` and
/// whose entry `i` (if any) is: entry `i - 1` is the largest version not
/// above `target`, or, when `i` is zero, no version is and the first
/// entry is the lowest.
proof fn lemma_sorted_choice(vs: Seq<(Seq<u64>, Seq<char>)>, target: Seq<u64>, i: int)
    requires
        sorted_by_version(vs),
        vs.len() > 0,
        0 <= i <= vs.len(),
        forall|t: int| 0 <= t < i ==> version_le(#[trigger] vs[t].0, target),
        i < vs.len() ==> !version_le(vs[i].0, target),
    ensures
        i > 0 ==> some_not_above(vs, target) && is_best_not_above(vs, target, vs[i - 1].0),
        i == 0 ==> !some_not_above(vs, target) && is_lowest(vs, vs[0].0),
{
    if i > 0 {
        assert(version_le(vs[i - 1].0, target));
        assert forall|j: int| 0 <= j < vs.len() && version_le(#[trigger] vs[j].0, target) implies version_le(
            vs[j].0,
            vs[i - 1].0,
        ) by {
            if j == i - 1 {
                lemma_compare_reflexive(vs[j].0);
            } else if j > i - 1 {
                if j > i {
                    lemma_compare_transitive(vs[i].0, vs[j].0, target);
                }
            }
        }
    } else {
        assert forall|j: int| 0 <= j < vs.len() implies version_le(vs[0].0, #[trigger] vs[j].0) by {
            if j == 0 {
                lemma_compare_reflexive(vs[0].0);
            }
        }
        if some_not_above(vs, target) {
            let j = choose|j: int| 0 <= j < vs.len() && version_le(#[trigger] vs[j].0, target);
            if j > 0 {
                lemma_compare_transitive(vs[0].0, vs[j].0, target);
            }
        }
    }
}

impl GemRBS {
    /// A loaded version list is sorted by version.
    pub open spec fn wf(&self) -> bool {
        match self.loaded() {
            Some(vs) => sorted_by_version(vs),
            None => true,
        }
    }

    /// The gem's name.
    pub closed spec fn gem_name(&self) -> Seq<char> {
        self.name@
    }

    /// The gem directories registered so far.
    pub closed spec fn gem_dirs(&self) -> Seq<Seq<char>> {
        strings_view(self.paths@)
    }

    /// The sorted version list once it has been loaded.
    pub closed spec fn loaded(&self) -> Option<Seq<(Seq<u64>, Seq<char>)>> {
        match self.versions {
            Some(v) => Some(version_paths_view(v@)),
            None => None,
        }
    }

    pub fn new(name: String) -> (r: Self)
        ensures
            r.gem_name() == name@,
            r.gem_dirs() == Seq::<Seq<char>>::empty(),
            r.loaded().is_none(),
            r.wf(),
    {
        let r = GemRBS { name, paths: Vec::new(), versions: None };
        proof {
            assert(r.gem_dirs() =~= Seq::<Seq<char>>::empty());
        }
        r
    }

    /// Register one more directory; the version list has to be loaded anew.
    pub fn add_path(&mut self, path: String)
        ensures
            final(self).gem_name() == old(self).gem_name(),
            final(self).gem_dirs() == old(self).gem_dirs().push(path@),
            final(self).loaded().is_none(),
            final(self).wf(),
    {
        self.paths.push(path);
        self.versions = None;
        proof {
            assert(self.gem_dirs() =~= old(self).gem_dirs().push(path@));
        }
    }

    /// Whether the version list has been loaded.
    pub fn is_loaded(&self) -> (b: bool)
        ensures
            b == self.loaded().is_some(),
    {
        self.versions.is_some()
    }

    /// Load the version list from the entry names of each registered gem
    /// directory (`listings[i]` lists `gem_dirs()[i]`; an unreadable
    /// directory lists nothing): every name that parses as a version,
    /// stably sorted by version.
    pub fn load_from(&mut self, listings: &Vec<Vec<String>>)
        requires
            listings@.len() == old(self).gem_dirs().len(),
        ensures
            final(self).gem_name() == old(self).gem_name(),
            final(self).gem_dirs() == old(self).gem_dirs(),
            final(self).loaded() is Some,
            final(self).wf(),
            stably_sorted(
                final(self).loaded()->0,
                all_listed_versions(old(self).gem_dirs(), listings_view(listings@)),
            ),
    {
        let mut found: Vec<VersionPath> = Vec::new();
        let mut i: usize = 0;
        let ghost dirs = self.gem_dirs();
        let ghost lists = listings_view(listings@);
        proof {
            assert(version_paths_view(found@) =~= all_listed_versions(dirs.take(0), lists.take(0)));
        }
        while i < self.paths.len()
            invariant
                dirs == strings_view(self.paths@),
                lists == listings_view(listings@),
                listings@.len() == self.paths@.len(),
                i <= self.paths@.len(),
                version_paths_view(found@) == all_listed_versions(dirs.take(i as int), lists.take(i as int)),
            decreases self.paths.len() - i,
        {
            let dir = &self.paths[i];
            let names = &listings[i];
            let mut j: usize = 0;
            let ghost base = version_paths_view(found@);
            proof {
                assert(listed_versions(dirs[i as int], lists[i as int].take(0)) =~= Seq::empty());
                assert(base =~= base + listed_versions(dirs[i as int], lists[i as int].take(0)));
            }
            while j < names.len()
                invariant
                    i < self.paths@.len(),
                    dirs == strings_view(self.paths@),
                    lists == listings_view(listings@),
                    listings@.len() == self.paths@.len(),
                    *names == listings@[i as int],
                    *dir == self.paths@[i as int],
                    j <= names@.len(),
                    version_paths_view(found@) == base + listed_versions(dirs[i as int], lists[i as int].take(j as int)),
                decreases names.len() - j,
            {
                let name = &names[j];
                proof {
                    assert(lists[i as int] == strings_view(names@));
                    assert(lists[i as int].take(j + 1).drop_last() =~= lists[i as int].take(j as int));
                    assert(lists[i as int].take(j + 1).last() == name@);
                    assert(dirs[i as int] == dir@);
                }
                match Version::parse(name.as_str()) {
                    Some(v) => {
                        let path = join(dir.as_str(), name.as_str());
                        let ghost before = version_paths_view(found@);
                        found.push(VersionPath { version: v, path });
                        proof {
                            assert(version_paths_view(found@) =~= before.push((v.segments@, path@)));
                        }
                    },
                    None => {},
                }
                j = j + 1;
            }
            proof {
                assert(lists[i as int].take(names@.len() as int) =~= lists[i as int]);
                assert(dirs.take(i + 1).drop_last() =~= dirs.take(i as int));
                assert(lists.take(i + 1).drop_last() =~= lists.take(i as int));
                assert(lists[i as int].len() == names@.len());
            }
            i = i + 1;
        }
        proof {
            assert(dirs.take(dirs.len() as int) =~= dirs);
            assert(lists.take(lists.len() as int) =~= lists);
        }
        let sorted = sort_by_version(found);
        self.versions = Some(sorted);
    }

    /// The loaded version list, sorted by version.
    pub fn versions(&self) -> (r: &[VersionPath])
        requires
            self.loaded() is Some,
        ensures
            version_paths_view(r@) == self.loaded()->0,
    {
        match &self.versions {
            Some(v) => v.as_slice(),
            None => {
                proof {
                    assert(false);
                }
                &[]
            },
        }
    }

    /// The highest version (the last one of the sorted list).
    pub fn latest(&self) -> (r: Option<&VersionPath>)
        requires
            self.loaded() is Some,
            self.wf(),
        ensures
            ({
                let vs = self.loaded()->0;
                match r {
                    Some(vp) => vs.len() > 0 && vp@ == vs.last() && is_highest(vs, vp@.0),
                    None => vs.len() == 0,
                }
            }),
    {
        let vs = self.versions();
        if vs.len() == 0 {
            None
        } else {
            proof {
                lemma_sorted_last_highest(self.loaded()->0);
            }
            Some(&vs[vs.len() - 1])
        }
    }

    /// The version to use for `target`: the latest when no version is
    /// asked for, else the largest version not above `target`, falling
    /// back to the smallest when every version is above it.
    pub fn find_best(&self, target: Option<&Version>) -> (r: Option<&VersionPath>)
        requires
            self.loaded() is Some,
            self.wf(),
        ensures
            ({
                let vs = self.loaded()->0;
                match r {
                    None => vs.len() == 0,
                    Some(vp) => vs.len() > 0 && match target {
                        None => vp@ == vs.last() && is_highest(vs, vp@.0),
                        Some(t) => {
                            let k = leading_not_above(vs, t.segments@);
                            &&& vp@ == vs[if k > 0 { k - 1 } else { 0 }]
                            &&& some_not_above(vs, t.segments@) ==> is_best_not_above(vs, t.segments@, vp@.0)
                            &&& !some_not_above(vs, t.segments@) ==> is_lowest(vs, vp@.0)
                        },
                    },
                }
            }),
    {
        let versions = self.versions();
        if versions.len() == 0 {
            return None;
        }
        match target {
            None => {
                proof {
                    lemma_sorted_last_highest(self.loaded()->0);
                }
                Some(&versions[versions.len() - 1])
            },
            Some(target) => {
                let ghost vs = version_paths_view(versions@);
                // largest version that is <= target.
                let mut best: Option<&VersionPath> = None;
                let mut i: usize = 0;
                let ghost mut gi: int = 0;
                while i < versions.len() && !version_above(&versions[i].version, target)
                    invariant
                        vs == version_paths_view(versions@),
                        i <= versions@.len(),
                        gi == i,
                        forall|t: int| 0 <= t < i ==> version_le(#[trigger] vs[t].0, target.segments@),
                        match best {
                            None => i == 0,
                            Some(b) => i > 0 && b@ == vs[i - 1],
                        },
                    decreases versions.len() - i,
                {
                    best = Some(&versions[i]);
                    i = i + 1;
                    proof {
                        gi = gi + 1;
                    }
                }
                proof {
                    lemma_leading_not_above(vs, target.segments@, gi);
                    lemma_sorted_choice(vs, target.segments@, gi);
                }
                match best {
                    Some(b) => Some(b),
                    None => Some(&versions[0]),
                }
            },
        }
    }
}

proof fn lemma_leading_not_above(vs: Seq<(Seq<u64>, Seq<char>)>, target: Seq<u64>, i: int)
    requires
        0 <= i <= vs.len(),
        forall|t: int| 0 <= t < i ==> version_le(#[trigger] vs[t].0, target),
        i < vs.len() ==> !version_le(vs[i].0, target),
    ensures
        leading_not_above(vs, target) == i,
    decreases i,
{
    if i > 0 {
        assert forall|t: int| 0 <= t < i - 1 implies version_le(#[trigger] vs.drop_first()[t].0, target) by {
            assert(vs.drop_first()[t] == vs[t + 1]);
        }
        lemma_leading_not_above(vs.drop_first(), target, i - 1);
    } else if vs.len() > 0 {
    }
}

/// The version a request names: none asked for, or the segments of the
/// request string (`None` as well when it does not parse).
pub open spec fn requested_version(version: Option<Seq<char>>) -> Option<Seq<u64>> {
    match version {
        None => None,
        Some(s) => version_segments(s),
    }
}

/// The directory `GemRBS::find_best` picks from a loaded version list.
pub open spec fn best_path(vs: Seq<(Seq<u64>, Seq<char>)>, target: Option<Seq<u64>>) -> Option<Seq<char>> {
    if vs.len() == 0 {
        None
    } else {
        match target {
            None => Some(vs.last().1),
            Some(t) => {
                let k = leading_not_above(vs, t);
                Some(vs[if k > 0 { k - 1 } else { 0 }].1)
            },
        }
    }
}

/// The version a choice for `target` must be: with no target the
/// highest; else the largest version not above the target, or the lowest
/// when every version is above it.
pub open spec fn right_choice(vs: Seq<(Seq<u64>, Seq<char>)>, target: Option<Seq<u64>>, v: Seq<u64>) -> bool {
    match target {
        None => is_highest(vs, v),
        Some(t) => if some_not_above(vs, t) {
            is_best_not_above(vs, t, v)
        } else {
            is_lowest(vs, v)
        },
    }
}

proof fn lemma_leading_not_above_facts(vs: Seq<(Seq<u64>, Seq<char>)>, target: Seq<u64>)
    ensures
        0 <= leading_not_above(vs, target) <= vs.len(),
        forall|t: int| 0 <= t < leading_not_above(vs, target) ==> version_le(#[trigger] vs[t].0, target),
        leading_not_above(vs, target) < vs.len() ==> !version_le(vs[leading_not_above(vs, target)].0, target),
    decreases vs.len(),
{
    if vs.len() > 0 && version_le(vs[0].0, target) {
        let rest = vs.drop_first();
        lemma_leading_not_above_facts(rest, target);
        assert forall|t: int| 0 <= t < leading_not_above(vs, target) implies version_le(#[trigger] vs[t].0, target) by {
            if t > 0 {
                assert(vs[t] == rest[t - 1]);
            }
        }
        if leading_not_above(vs, target) < vs.len() {
            assert(vs[leading_not_above(vs, target)] == rest[leading_not_above(rest, target)]);
        }
    }
}

/// A gem with at least one version always has a directory to offer, for
/// any request: the highest version when none is asked for, else the
/// largest version not above the request, falling back to the lowest
/// version when every version is above it.
pub proof fn lemma_best_path_choice(vs: Seq<(Seq<u64>, Seq<char>)>, target: Option<Seq<u64>>)
    requires
        sorted_by_version(vs),
        vs.len() > 0,
    ensures
        best_path(vs, target) matches Some(p) && exists|i: int|
            0 <= i < vs.len() && (#[trigger] vs[i]).1 == p && right_choice(vs, target, vs[i].0),
{
    match target {
        None => {
            lemma_sorted_last_highest(vs);
            assert(vs[vs.len() - 1] == vs.last());
        },
        Some(t) => {
            lemma_leading_not_above_facts(vs, t);
            let k = leading_not_above(vs, t);
            lemma_sorted_choice(vs, t, k);
            let i = if k > 0 { k - 1 } else { 0 };
            assert(vs[i].1 == best_path(vs, target)->0);
        },
    }
}

/// What the repository knows of one gem: its directories and, once
/// loaded, its sorted version list.
pub type GemState = (Seq<Seq<char>>, Option<Seq<(Seq<u64>, Seq<char>)>>);

/// Registering gem directory `dir` under `name`: the gem gains the
/// directory (a new name starts a gem) and must be loaded anew.
pub open spec fn add_gem_dir(m: Map<Seq<char>, GemState>, name: Seq<char>, dir: Seq<char>) -> Map<
    Seq<char>,
    GemState,
> {
    if m.contains_key(name) {
        m.insert(name, (m[name].0.push(dir), None))
    } else {
        m.insert(name, (seq![dir], None))
    }
}

/// Registering `(name, dir)` entries in order.
pub open spec fn add_gem_dirs(m: Map<Seq<char>, GemState>, entries: Seq<(Seq<char>, Seq<char>)>) -> Map<
    Seq<char>,
    GemState,
>
    decreases entries.len(),
{
    if entries.len() == 0 {
        m
    } else {
        let init = add_gem_dirs(m, entries.drop_last());
        add_gem_dir(init, entries.last().0, entries.last().1)
    }
}

pub open spec fn entries_view(v: Seq<(String, String)>) -> Seq<(Seq<char>, Seq<char>)> {
    v.map_values(|e: (String, String)| (e.0@, e.1@))
}

/// Mirror of `RBS::Repository`: gems found under registered directories.
pub struct Repository {
    pub dirs: Vec<String>,
    gems: Vec<GemRBS>,
    index: StringHashMap<usize>,
}

impl GemRBS {
    /// Directories and loaded versions.
    pub open spec fn state(&self) -> GemState {
        (self.gem_dirs(), self.loaded())
    }
}

impl Repository {
    /// The registered repository directories.
    pub closed spec fn dir_list(&self) -> Seq<Seq<char>> {
        strings_view(self.dirs@)
    }

    /// The known gems by name.
    pub closed spec fn gems_view(&self) -> Map<Seq<char>, GemState> {
        Map::new(
            |name: Seq<char>| self.index@.contains_key(name),
            |name: Seq<char>| self.gems@[self.index@[name] as int].state(),
        )
    }

    pub closed spec fn wf(&self) -> bool {
        &&& forall|name: Seq<char>| #[trigger] self.index@.contains_key(name) ==> (self.index@[name] as int) < self.gems@.len()
            && self.gems@[self.index@[name] as int].gem_name() == name
        &&& forall|i: int| 0 <= i < self.gems@.len() ==> #[trigger] self.index@.contains_key(self.gems@[i].gem_name())
            && self.index@[self.gems@[i].gem_name()] == i
        &&& forall|i: int| 0 <= i < self.gems@.len() ==> (#[trigger] self.gems@[i]).wf()
    }

    pub fn new() -> (r: Self)
        ensures
            r.wf(),
            r.dir_list() == Seq::<Seq<char>>::empty(),
            r.gems_view() == Map::<Seq<char>, GemState>::empty(),
    {
        let r = Repository { dirs: Vec::new(), gems: Vec::new(), index: StringHashMap::new() };
        proof {
            assert(r.dir_list() =~= Seq::<Seq<char>>::empty());
            assert(r.gems_view() =~= Map::<Seq<char>, GemState>::empty());
        }
        r
    }

    /// Register a repository directory given its gem subdirectories, as
    /// `(gem name, gem directory)` in listing order (nothing when the
    /// directory cannot be read).
    pub fn add_listing(&mut self, dir: String, entries: Vec<(String, String)>)
        requires
            old(self).wf(),
        ensures
            final(self).wf(),
            final(self).dir_list() == old(self).dir_list().push(dir@),
            final(self).gems_view() == add_gem_dirs(old(self).gems_view(), entries_view(entries@)),
    {
        let mut k: usize = 0;
        let ghost ev = entries_view(entries@);
        proof {
            assert(ev.take(0) =~= Seq::<(Seq<char>, Seq<char>)>::empty());
        }
        while k < entries.len()
            invariant
                self.wf(),
                ev == entries_view(entries@),
                k <= entries@.len(),
                self.dirs@ == old(self).dirs@,
                self.gems_view() == add_gem_dirs(old(self).gems_view(), ev.take(k as int)),
            decreases entries.len() - k,
        {
            let name = &entries[k].0;
            let path = entries[k].1.clone();
            let ghost before_view = self.gems_view();
            let ghost before_gems = self.gems@;
            let idx = match self.index.get(name.as_str()) {
                Some(i) => *i,
                None => {
                    let i = self.gems.len();
                    let gem = GemRBS::new(name.clone());
                    self.gems.push(gem);
                    self.index.insert(name.clone(), i);
                    proof {
                        assert forall|nm: Seq<char>| #[trigger] self.index@.contains_key(nm) implies (self.index@[nm] as int) < self.gems@.len()
                            && self.gems@[self.index@[nm] as int].gem_name() == nm by {
                            if nm != name@ {
                                assert(before_view.contains_key(nm));
                            }
                        }
                        assert forall|t: int| 0 <= t < self.gems@.len() implies #[trigger] self.index@.contains_key(self.gems@[t].gem_name())
                            && self.index@[self.gems@[t].gem_name()] == t by {
                            if t < i {
                                assert(self.gems@[t] == before_gems[t]);
                                assert(old(self).index@.contains_key(before_gems[t].gem_name()) || true);
                            }
                        }
                    }
                    i
                },
            };
            let ghost mid_gems = self.gems@;
            self.gems[idx].add_path(path);
            proof {
                assert(ev.take(k + 1).drop_last() =~= ev.take(k as int));
                assert(ev.take(k + 1).last() == (name@, path@));
                assert forall|nm: Seq<char>| #[trigger] self.index@.contains_key(nm) implies (self.index@[nm] as int) < self.gems@.len()
                    && self.gems@[self.index@[nm] as int].gem_name() == nm by {
                    assert(mid_gems[self.index@[nm] as int].gem_name() == nm);
                }
                assert forall|t: int| 0 <= t < self.gems@.len() implies #[trigger] self.index@.contains_key(self.gems@[t].gem_name())
                    && self.index@[self.gems@[t].gem_name()] == t by {
                    assert(self.gems@[t].gem_name() == mid_gems[t].gem_name());
                }
                let target = add_gem_dir(before_view, name@, path@);
                assert forall|nm: Seq<char>| #[trigger] self.gems_view().contains_key(nm) == target.contains_key(nm) by {}
                assert forall|nm: Seq<char>| #[trigger] self.gems_view().contains_key(nm) implies self.gems_view()[nm] == target[nm] by {
                    if nm == name@ {
                        if before_view.contains_key(nm) {
                            assert(self.gems@[idx as int].gem_dirs() == mid_gems[idx as int].gem_dirs().push(path@));
                        } else {
                            assert(mid_gems[idx as int].gem_dirs() =~= Seq::<Seq<char>>::empty());
                            assert(self.gems@[idx as int].gem_dirs() =~= seq![path@]);
                        }
                    } else {
                        assert(self.index@[nm] != idx);
                        assert(before_view.contains_key(nm));
                        assert(self.gems@[self.index@[nm] as int] == before_gems[self.index@[nm] as int]);
                    }
                }
                assert(self.gems_view() =~= target);
            }
            k = k + 1;
        }
        proof {
            assert(ev.take(entries@.len() as int) =~= ev);
        }
        self.dirs.push(dir);
        proof {
            assert(self.dir_list() =~= old(self).dir_list().push(dir@));
        }
    }

    /// The directories registered for gem `name`, for reading its
    /// version listings.
    pub fn gem_dirs_of(&self, name: &str) -> (r: Option<Vec<String>>)
        requires
            self.wf(),
        ensures
            match r {
                Some(d) => self.gems_view().contains_key(name@) && strings_view(d@) == self.gems_view()[name@].0,
                None => !self.gems_view().contains_key(name@),
            },
    {
        match self.index.get(name) {
            Some(i) => Some(self.gems[*i].dir_copies()),
            None => None,
        }
    }

    /// Whether gem `name` is unknown or has its version list loaded.
    pub fn gem_ready(&self, name: &str) -> (b: bool)
        requires
            self.wf(),
        ensures
            b == (!self.gems_view().contains_key(name@) || self.gems_view()[name@].1 is Some),
    {
        match self.index.get(name) {
            Some(i) => self.gems[*i].is_loaded(),
            None => true,
        }
    }

    /// Load gem `name`'s versions from the listings of its directories
    /// (see [`GemRBS::load_from`]); an unknown name changes nothing.
    pub fn load_gem(&mut self, name: &str, listings: &Vec<Vec<String>>)
        requires
            old(self).wf(),
            old(self).gems_view().contains_key(name@) ==> listings@.len() == old(self).gems_view()[name@].0.len(),
        ensures
            final(self).wf(),
            final(self).dir_list() == old(self).dir_list(),
            final(self).gems_view().dom() == old(self).gems_view().dom(),
            forall|n: Seq<char>| #[trigger] final(self).gems_view().contains_key(n) && n != name@ ==> final(self).gems_view()[n] == old(self).gems_view()[n],
            final(self).gems_view().contains_key(name@) ==> {
                let g = final(self).gems_view()[name@];
                &&& g.0 == old(self).gems_view()[name@].0
                &&& g.1 is Some
                &&& stably_sorted(g.1->0, all_listed_versions(g.0, listings_view(listings@)))
            },
    {
        match self.index.get(name) {
            Some(i) => {
                let i = *i;
                let ghost before = self.gems@;
                self.gems[i].load_from(listings);
                proof {
                    assert forall|nm: Seq<char>| #[trigger] self.index@.contains_key(nm) implies (self.index@[nm] as int) < self.gems@.len()
                        && self.gems@[self.index@[nm] as int].gem_name() == nm by {
                        assert(before[self.index@[nm] as int].gem_name() == nm);
                    }
                    assert forall|t: int| 0 <= t < self.gems@.len() implies #[trigger] self.index@.contains_key(self.gems@[t].gem_name())
                        && self.index@[self.gems@[t].gem_name()] == t by {
                        assert(self.gems@[t].gem_name() == before[t].gem_name());
                    }
                    assert(self.gems_view().dom() =~= old(self).gems_view().dom());
                    assert forall|n: Seq<char>| #[trigger] self.gems_view().contains_key(n) && n != name@ implies self.gems_view()[n] == old(self).gems_view()[n] by {
                        assert(self.index@[n] != i);
                        assert(self.gems@[self.index@[n] as int] == before[self.index@[n] as int]);
                    }
                }
            },
            None => {},
        }
    }

    /// What [`Self::lookup`] answers for a loaded (or unknown) gem.
    pub open spec fn lookup_spec(&self, gem: Seq<char>, version: Option<Seq<char>>) -> Option<Seq<char>> {
        if self.gems_view().contains_key(gem) {
            best_path(self.gems_view()[gem].1->0, requested_version(version))
        } else {
            None
        }
    }

    /// `RBS::Repository#lookup`: the directory of the best version of
    /// `gem` for `version` (see [`GemRBS::find_best`]); a version string
    /// that does not parse counts as no version asked for.
    pub fn lookup(&self, gem: &str, version: Option<&str>) -> (r: Option<String>)
        requires
            self.wf(),
            self.gems_view().contains_key(gem@) ==> self.gems_view()[gem@].1 is Some,
        ensures
            ({
                let asked = requested_version(match version { Some(v) => Some(v@), None => None });
                match r {
                    Some(p) => self.gems_view().contains_key(gem@)
                        && best_path(self.gems_view()[gem@].1->0, asked) == Some(p@),
                    None => !self.gems_view().contains_key(gem@)
                        || best_path(self.gems_view()[gem@].1->0, asked).is_none(),
                }
            }),
            r matches Some(p) ==> self.lookup_spec(gem@, match version { Some(v) => Some(v@), None => None }) == Some(p@),
            r is None ==> self.lookup_spec(gem@, match version { Some(v) => Some(v@), None => None }) is None,
            ({
                let asked = requested_version(match version { Some(v) => Some(v@), None => None });
                self.gems_view().contains_key(gem@) && self.gems_view()[gem@].1->0.len() > 0 ==> (r matches Some(p)
                    && exists|i: int| 0 <= i < self.gems_view()[gem@].1->0.len()
                        && (#[trigger] self.gems_view()[gem@].1->0[i]).1 == p@
                        && right_choice(self.gems_view()[gem@].1->0, asked, self.gems_view()[gem@].1->0[i].0))
            }),
    {
        let i = match self.index.get(gem) {
            Some(i) => *i,
            None => return None,
        };
        let g = &self.gems[i];
        proof {
            assert(self.gems_view()[gem@] == g.state());
            assert(g.wf());
            if g.loaded()->0.len() > 0 {
                lemma_best_path_choice(g.loaded()->0, requested_version(match version { Some(v) => Some(v@), None => None }));
            }
        }
        let v = match version {
            Some(s) => Version::parse(s),
            None => None,
        };
        match g.find_best(v.as_ref()) {
            Some(vp) => Some(vp.path.clone()),
            None => None,
        }
    }
}

impl GemRBS {
    fn dir_copies(&self) -> (r: Vec<String>)
        ensures
            strings_view(r@) == self.gem_dirs(),
    {
        let mut r: Vec<String> = Vec::new();
        let mut i: usize = 0;
        while i < self.paths.len()
            invariant
                i <= self.paths@.len(),
                strings_view(r@) == strings_view(self.paths@).take(i as int),
            decreases self.paths.len() - i,
        {
            let c = self.paths[i].clone();
            let ghost before = r@;
            r.push(c);
            proof {
                assert(c@ == self.paths@[i as int]@);
                assert(r@ == before.push(c));
                assert(strings_view(r@) =~= strings_view(before).push(c@));
                assert(strings_view(self.paths@).take(i + 1) =~= strings_view(self.paths@).take(i as int).push(c@));
            }
            i = i + 1;
        }
        proof {
            assert(strings_view(self.paths@).take(self.paths@.len() as int) =~= strings_view(self.paths@));
        }
        r
    }
}

/// The default stdlib root, given the path to `vendor/rbs`.
pub fn default_stdlib_root(vendor_rbs: &str) -> (r: String)
    ensures
        r@ == join_path(vendor_rbs@, "stdlib"@),
{
    join(vendor_rbs, "stdlib")
}

} // verus!
