//! The decisions of the dependency resolver: synthesising the root
//! dependency set from requirements and locked versions, putting releases
//! into the order the solver explores, choosing a version among candidates,
//! and deciding whether a release's dependencies may be used.

use vstd::prelude::*;

use crate::version::{version_eq, version_le, version_lt, Version, VersionView,
    lemma_version_order_flip, lemma_version_order_trans};
use crate::version::parser::Range;
use crate::{Dependency, Package, Release};

verus! {

/// A failure reported by a package fetcher, as a printable message.
#[derive(Debug, Clone)]
pub struct FetchError(pub String);

/// The capability the resolver consumes: something that can produce the
/// releases of a named package.
pub trait PackageFetcher {
    fn get_dependencies(&self, package: &str) -> Result<Package, FetchError>;
}

/// A root requirement that contradicts the locked version of the same
/// package: reported before any resolution work starts.
#[derive(Debug)]
pub struct IncompatibleLockedVersion {
    pub package: String,
    pub requirement: Range,
    pub version: Version,
}

// ---------------------------------------------------------------------------
// Association lists standing in for maps keyed by package name.
// ---------------------------------------------------------------------------

/// The first position of `key` in an association list, or -1.
pub open spec fn key_idx<T>(m: Seq<(String, T)>, key: Seq<char>, i: int) -> int
    decreases m.len() - i,
{
    if i < 0 || i >= m.len() {
        -1
    } else if m[i].0@ == key {
        i
    } else {
        key_idx(m, key, i + 1)
    }
}

pub open spec fn has_key<T>(m: Seq<(String, T)>, key: Seq<char>) -> bool {
    key_idx(m, key, 0) != -1
}

proof fn lemma_key_idx<T>(m: Seq<(String, T)>, key: Seq<char>, i: int)
    requires
        0 <= i <= m.len(),
    ensures
        key_idx(m, key, i) == -1 ==> forall|j: int| i <= j < m.len() ==> m[j].0@ != key,
        key_idx(m, key, i) != -1 ==> i <= key_idx(m, key, i) < m.len() && m[key_idx(m, key, i)].0@
            == key,
    decreases m.len() - i,
{
    if i < m.len() && m[i].0@ != key {
        lemma_key_idx(m, key, i + 1);
    }
}

/// Look a name up in an association list.
fn assoc_get<'a, T>(m: &'a Vec<(String, T)>, key: &String) -> (r: Option<&'a T>)
    ensures
        r is Some <==> has_key(m@, key@),
        r matches Some(t) ==> *t == m@[key_idx(m@, key@, 0)].1,
{
    let mut i: usize = 0;
    while i < m.len()
        invariant
            0 <= i <= m@.len(),
            key_idx(m@, key@, 0) == key_idx(m@, key@, i as int),
        decreases m@.len() - i,
    {
        if m[i].0.eq(key) {
            assert(key_idx(m@, key@, i as int) == i);
            return Some(&m[i].1);
        }
        assert(key_idx(m@, key@, i as int) == key_idx(m@, key@, i + 1));
        i = i + 1;
    }
    None
}

/// The entries whose package is not held in the lock map.
pub open spec fn unlocked(locked: Seq<(String, Version)>) -> spec_fn((String, Range)) -> bool {
    |e: (String, Range)| !has_key(locked, e.0@)
}

/// Two named requirements that agree: same package name, same text, same
/// accepted versions.
pub open spec fn range_entry_matches(a: (String, Range), b: (String, Range)) -> bool {
    a.0@ == b.0@ && a.1.text() == b.1.text() && forall|w: VersionView|
        #[trigger] a.1.accepts(w) == b.1.accepts(w)
}

impl Dependency {
    /// The hard requirement a locked version becomes: exactly that version.
    pub fn from_version(version: &Version) -> (d: Dependency)
        ensures
            d.requirement.text() == crate::version::version_str(version@),
            forall|w: VersionView| #[trigger] d.requirement.accepts(w) == version_eq(w, version@),
            !d.optional,
            d.app is None,
            d.repository is None,
    {
        Dependency {
            requirement: Range::from_version(version),
            optional: false,
            app: None,
            repository: None,
        }
    }

    /// The dependency a plain root requirement becomes.
    pub fn from_range(range: Range) -> (d: Dependency)
        ensures
            d.requirement == range,
            !d.optional,
            d.app is None,
            d.repository is None,
    {
        Dependency { requirement: range, optional: false, app: None, repository: None }
    }
}

// ---------------------------------------------------------------------------
// Root synthesis.
// ---------------------------------------------------------------------------

/// How an entry of the synthesised root dependency set relates to the
/// locked version it came from.
pub open spec fn locked_entry_ok(e: (String, Dependency), name: Seq<char>, v: VersionView) -> bool {
    e.0@ == name && !e.1.optional && forall|w: VersionView|
        #[trigger] e.1.requirement.accepts(w) == version_eq(w, v)
}

/// How an entry relates to the root requirement it came from.
pub open spec fn required_entry_ok(e: (String, Dependency), name: Seq<char>, rg: Range) -> bool {
    e.0@ == name && !e.1.optional && e.1.requirement.text() == rg.text() && forall|w: VersionView|
        #[trigger] e.1.requirement.accepts(w) == rg.accepts(w)
}

/// The first root requirement that contradicts its locked version, or -1:
/// the entry names a locked package whose locked version does not satisfy
/// it.
pub open spec fn first_conflict(
    base: Seq<(String, Range)>,
    locked: Seq<(String, Version)>,
    i: int,
) -> int
    decreases base.len() - i,
{
    if i < 0 || i >= base.len() {
        -1
    } else {
        let li = key_idx(locked, base[i].0@, 0);
        if li != -1 && !base[i].1.accepts(locked[li].1@) {
            i
        } else {
            first_conflict(base, locked, i + 1)
        }
    }
}

/// Build the dependency set of the synthetic root: every locked version
/// becomes a hard requirement, and every root requirement of an unlocked
/// package is taken as given. A root requirement of a locked package must
/// accept the locked version; otherwise the first offender is reported and
/// no resolution is attempted.
pub fn root_dependencies(base: Vec<(String, Range)>, locked: &Vec<(String, Version)>) -> (r:
    Result<Vec<(String, Dependency)>, IncompatibleLockedVersion>)
    ensures
        r is Ok <==> first_conflict(base@, locked@, 0) == -1,
        r matches Err(e) ==> {
            let c = first_conflict(base@, locked@, 0);
            let li = key_idx(locked@, base@[c].0@, 0);
            &&& 0 <= c < base@.len()
            &&& e.package@ == base@[c].0@
            &&& e.requirement.text() == base@[c].1.text()
            &&& e.version@ == locked@[li].1@
            &&& !base@[c].1.accepts(e.version@)
        },
        r matches Ok(reqs) ==> {
            let kept = base@.filter(unlocked(locked@));
            &&& reqs@.len() == locked@.len() + kept.len()
            &&& forall|i: int|
                0 <= i < locked@.len() ==> locked_entry_ok(
                    #[trigger] reqs@[i],
                    locked@[i].0@,
                    locked@[i].1@,
                )
            &&& forall|i: int|
                0 <= i < kept.len() ==> required_entry_ok(
                    #[trigger] reqs@[locked@.len() + i],
                    kept[i].0@,
                    kept[i].1,
                )
        },
{
    broadcast use vstd::seq_lib::group_filter_ensures;

    let mut reqs: Vec<(String, Dependency)> = Vec::new();
    let mut i: usize = 0;
    while i < locked.len()
        invariant
            0 <= i <= locked@.len(),
            reqs@.len() == i,
            forall|j: int|
                0 <= j < i ==> locked_entry_ok(#[trigger] reqs@[j], locked@[j].0@, locked@[j].1@),
        decreases locked@.len() - i,
    {
        let name = locked[i].0.clone();
        let dep = Dependency::from_version(&locked[i].1);
        reqs.push((name, dep));
        i = i + 1;
    }

    let ghost locked_len = locked@.len() as int;
    let mut base_vec = base;
    let ghost base_view = base_vec@;
    let mut k: usize = 0;
    let mut kept_entries: Vec<(String, Range)> = Vec::new();
    proof {
        reveal(Seq::filter);
        assert(base_view.take(0) =~= Seq::<(String, Range)>::empty());
        assert(base_view.take(0).filter(unlocked(locked@)).len() == 0);
    }
    while k < base_vec.len()
        invariant
            0 <= k <= base_view.len(),
            base_vec@ == base_view,
            base_view == base@,
            first_conflict(base_view, locked@, 0) == first_conflict(base_view, locked@, k as int),
            kept_entries@.len() == base_view.take(k as int).filter(unlocked(locked@)).len(),
            forall|j: int|
                0 <= j < kept_entries@.len() ==> range_entry_matches(
                    #[trigger] kept_entries@[j],
                    base_view.take(k as int).filter(unlocked(locked@))[j],
                ),
        decreases base_view.len() - k,
    {
        proof {
            assert(base_view.take(k + 1).drop_last() =~= base_view.take(k as int));
            assert(base_view.take(k + 1).last() == base_view[k as int]);
            lemma_key_idx(locked@, base_view[k as int].0@, 0);
        }
        let locked_v = assoc_get(locked, &base_vec[k].0);
        match locked_v {
            Option::None => {
                let name = base_vec[k].0.clone();
                let rg = base_vec[k].1.duplicate();
                kept_entries.push((name, rg));
                proof {
                    reveal(Seq::filter);
                    let f = unlocked(locked@);
                    assert(f(base_view[k as int]));
                    assert(base_view.take(k + 1).filter(f) =~= base_view.take(k as int).filter(
                        f,
                    ).push(base_view[k as int]));
                    assert(first_conflict(base_view, locked@, k as int) == first_conflict(
                        base_view,
                        locked@,
                        k + 1,
                    ));
                }
            },
            Option::Some(v) => {
                if !base_vec[k].1.contains(v) {
                    // The requirement contradicts the locked version.
                    proof {
                        assert(!base_view[k as int].1.accepts(
                            locked@[key_idx(locked@, base_view[k as int].0@, 0)].1@,
                        ));
                        assert(first_conflict(base_view, locked@, k as int) == k);
                    }
                    let version = v.clone_exact();
                    let pair = take_pair(&mut base_vec, k);
                    return Result::Err(IncompatibleLockedVersion {
                        package: pair.0,
                        requirement: pair.1,
                        version,
                    });
                }
                proof {
                    reveal(Seq::filter);
                    let f = unlocked(locked@);
                    assert(!f(base_view[k as int]));
                    assert(base_view.take(k + 1).filter(f) =~= base_view.take(k as int).filter(f));
                    assert(first_conflict(base_view, locked@, k as int) == first_conflict(
                        base_view,
                        locked@,
                        k + 1,
                    ));
                }
            },
        }
        k = k + 1;
    }
    proof {
        assert(base_view.take(base_view.len() as int) =~= base_view);
    }
    let mut m: usize = 0;
    let ghost kept = base_view.filter(unlocked(locked@));
    while m < kept_entries.len()
        invariant
            0 <= m <= kept_entries@.len(),
            kept_entries@.len() == kept.len(),
            forall|j: int|
                0 <= j < kept.len() ==> range_entry_matches(#[trigger] kept_entries@[j], kept[j]),
            reqs@.len() == locked_len + m,
            locked_len == locked@.len(),
            forall|j: int|
                0 <= j < locked@.len() ==> locked_entry_ok(
                    #[trigger] reqs@[j],
                    locked@[j].0@,
                    locked@[j].1@,
                ),
            forall|j: int|
                0 <= j < m ==> required_entry_ok(#[trigger] reqs@[locked_len + j], kept[j].0@,
                    kept[j].1),
        decreases kept_entries@.len() - m,
    {
        let name = kept_entries[m].0.clone();
        let rg = kept_entries[m].1.duplicate();
        reqs.push((name, Dependency::from_range(rg)));
        m = m + 1;
    }
    Result::Ok(reqs)
}

/// Move the pair at `i` out of the vector.
fn take_pair(v: &mut Vec<(String, Range)>, i: usize) -> (r: (String, Range))
    requires
        i < old(v)@.len(),
    ensures
        r.0@ == old(v)@[i as int].0@,
        r.1 == old(v)@[i as int].1,
{
    let pair = v.remove(i);
    pair
}

// ---------------------------------------------------------------------------
// The order releases are explored in.
// ---------------------------------------------------------------------------

/// Whether release `a` may stand before release `b` in the canonical
/// order: releases that are not pre-releases come first, and within each
/// group newer versions come first.
pub open spec fn release_before(a: Release<()>, b: Release<()>) -> bool {
    if (a.version@.pre.len() == 0) != (b.version@.pre.len() == 0) {
        a.version@.pre.len() == 0
    } else {
        version_le(b.version@, a.version@)
    }
}

proof fn lemma_version_le_trans(a: VersionView, b: VersionView, c: VersionView)
    requires
        version_le(a, b),
        version_le(b, c),
    ensures
        version_le(a, c),
{
    if version_lt(a, b) && version_lt(b, c) {
        lemma_version_order_trans(a, b, c);
    } else if version_eq(a, b) {
        crate::version::interval::lemma_eq_compat(a, b, c);
    } else {
        crate::version::interval::lemma_eq_compat(b, c, a);
        lemma_version_order_flip(a, b);
        lemma_version_order_flip(a, c);
    }
}

/// The order compares every version equal to itself.
proof fn lemma_version_eq_refl(a: VersionView)
    ensures
        version_eq(a, a),
{
    crate::version::lemma_cmp_ids_eq(a.pre, a.pre);
}

proof fn lemma_release_before_refl(a: Release<()>)
    ensures
        release_before(a, a),
{
    lemma_version_eq_refl(a.version@);
}

proof fn lemma_release_before_total(a: Release<()>, b: Release<()>)
    ensures
        release_before(a, b) || release_before(b, a),
{
    lemma_version_order_flip(a.version@, b.version@);
}

proof fn lemma_release_before_trans(a: Release<()>, b: Release<()>, c: Release<()>)
    requires
        release_before(a, b),
        release_before(b, c),
    ensures
        release_before(a, c),
{
    if (a.version@.pre.len() == 0) == (b.version@.pre.len() == 0) && (b.version@.pre.len() == 0)
        == (c.version@.pre.len() == 0) {
        lemma_version_le_trans(c.version@, b.version@, a.version@);
    }
}

fn release_precedes(a: &Release<()>, b: &Release<()>) -> (r: bool)
    ensures
        r == release_before(*a, *b),
{
    let a_pre = a.version.is_pre();
    let b_pre = b.version.is_pre();
    if a_pre != b_pre {
        !a_pre
    } else {
        !matches!(b.version.compare(&a.version), core::cmp::Ordering::Greater)
    }
}

/// Put releases into the order the resolver explores them in: releases
/// that are not pre-releases first, newest first, then pre-releases,
/// newest first. The result holds exactly the given releases.
pub fn canonical_release_order(releases: Vec<Release<()>>) -> (r: Vec<Release<()>>)
    ensures
        r@.len() == releases@.len(),
        r@.to_multiset() == releases@.to_multiset(),
        forall|i: int, j: int|
            0 <= i < j < r@.len() ==> release_before(#[trigger] r@[i], #[trigger] r@[j]),
{
    broadcast use vstd::seq_lib::group_to_multiset_ensures;

    let ghost orig = releases@;
    let mut rest = releases;
    let mut out: Vec<Release<()>> = Vec::new();
    proof {
        assert(out@.to_multiset().add(rest@.to_multiset()) =~= orig.to_multiset());
    }
    while rest.len() > 0
        invariant
            out@.to_multiset().add(rest@.to_multiset()) == orig.to_multiset(),
            out@.len() + rest@.len() == orig.len(),
            forall|i: int, j: int|
                0 <= i < j < out@.len() ==> release_before(#[trigger] out@[i], #[trigger] out@[j]),
            forall|i: int, j: int|
                0 <= i < out@.len() && 0 <= j < rest@.len() ==> release_before(
                    #[trigger] out@[i],
                    #[trigger] rest@[j],
                ),
        decreases rest@.len(),
    {
        // Find a release that may precede every remaining one.
        let mut m: usize = 0;
        let mut j: usize = 1;
        proof {
            lemma_release_before_refl(rest@[0]);
        }
        while j < rest.len()
            invariant
                0 <= m < j <= rest@.len(),
                rest@.len() > 0,
                forall|k: int|
                    0 <= k < j ==> release_before(rest@[m as int], #[trigger] rest@[k]),
            decreases rest@.len() - j,
        {
            if !release_precedes(&rest[m], &rest[j]) {
                proof {
                    lemma_release_before_total(rest@[m as int], rest@[j as int]);
                    assert forall|k: int|
                        0 <= k < j implies release_before(rest@[j as int], #[trigger] rest@[k]) by {
                        lemma_release_before_trans(rest@[j as int], rest@[m as int], rest@[k]);
                    }
                    lemma_release_before_refl(rest@[j as int]);
                }
                m = j;
            } else {
                proof {
                    lemma_release_before_refl(rest@[j as int]);
                }
            }
            j = j + 1;
        }
        let ghost old_out = out@;
        let ghost old_rest = rest@;
        let picked = rest.remove(m);
        out.push(picked);
        proof {
            assert(old_rest[m as int] == picked);
            assert(out@ == old_out.push(picked));
            vstd::seq_lib::to_multiset_build(old_out, picked);
            assert(rest@ == old_rest.remove(m as int));
            vstd::seq_lib::to_multiset_remove(old_rest, m as int);
            vstd::seq_lib::to_multiset_contains(old_rest, picked);
            assert(old_rest.to_multiset().count(picked) > 0);
            assert(out@.to_multiset().add(rest@.to_multiset()) =~= orig.to_multiset());
            assert forall|i: int, j2: int|
                0 <= i < out@.len() && 0 <= j2 < rest@.len() implies release_before(
                #[trigger] out@[i],
                #[trigger] rest@[j2],
            ) by {
                if i < old_out.len() {
                } else {
                    if j2 < m {
                        assert(rest@[j2] == old_rest[j2]);
                    } else {
                        assert(rest@[j2] == old_rest[j2 + 1]);
                    }
                }
            }
        }
    }
    out
}

// ---------------------------------------------------------------------------
// Choosing a version among the candidates a requirement admits.
// ---------------------------------------------------------------------------

/// Choose the version the resolver takes from a candidate set: the
/// greatest candidate that is not a pre-release, or, when every candidate
/// is a pre-release, the greatest candidate; no choice only when there is
/// no candidate.
pub fn pick_version(candidates: &Vec<Version>) -> (r: Option<Version>)
    ensures
        r is None <==> candidates@.len() == 0,
        r matches Some(v) ==> exists|i: int|
            0 <= i < candidates@.len() && #[trigger] candidates@[i]@ == v@,
        r matches Some(v) ==> ((exists|i: int|
            0 <= i < candidates@.len() && (#[trigger] candidates@[i]@).pre.len() == 0) ==> (
        v@.pre.len() == 0 && forall|i: int|
            0 <= i < candidates@.len() && (#[trigger] candidates@[i]@).pre.len() == 0
                ==> version_le(candidates@[i]@, v@))),
        r matches Some(v) ==> ((forall|i: int|
            0 <= i < candidates@.len() ==> (#[trigger] candidates@[i]@).pre.len() != 0)
            ==> forall|i: int|
            0 <= i < candidates@.len() ==> version_le(#[trigger] candidates@[i]@, v@)),
{
    let mut best_nonpre: Option<Version> = None;
    let mut best_pre: Option<Version> = None;
    let mut i: usize = 0;
    while i < candidates.len()
        invariant
            0 <= i <= candidates@.len(),
            best_nonpre matches Some(b) ==> b@.pre.len() == 0 && (exists|k: int|
                0 <= k < i && #[trigger] candidates@[k]@ == b@) && forall|k: int|
                0 <= k < i && (#[trigger] candidates@[k]@).pre.len() == 0 ==> version_le(
                    candidates@[k]@,
                    b@,
                ),
            best_nonpre is None ==> forall|k: int|
                0 <= k < i ==> (#[trigger] candidates@[k]@).pre.len() != 0,
            best_pre matches Some(b) ==> (exists|k: int|
                0 <= k < i && #[trigger] candidates@[k]@ == b@) && forall|k: int|
                0 <= k < i && (#[trigger] candidates@[k]@).pre.len() != 0 ==> version_le(
                    candidates@[k]@,
                    b@,
                ),
            best_pre is None ==> forall|k: int|
                0 <= k < i ==> (#[trigger] candidates@[k]@).pre.len() == 0,
            i > 0 ==> best_nonpre is Some || best_pre is Some,
        decreases candidates@.len() - i,
    {
        let c = &candidates[i];
        if c.is_pre() {
            let replace = match &best_pre {
                Option::None => true,
                Option::Some(b) => !matches!(c.compare(b), core::cmp::Ordering::Less),
            };
            if replace {
                proof {
                    lemma_version_eq_refl(c@);
                    if best_pre is Some {
                        let b = best_pre->Some_0;
                        lemma_version_order_flip(c@, b@);
                        assert forall|k: int|
                            0 <= k < i + 1 && (#[trigger] candidates@[k]@).pre.len() != 0
                                implies version_le(candidates@[k]@, c@) by {
                            if k < i {
                                lemma_version_le_trans(candidates@[k]@, b@, c@);
                            }
                        }
                    }
                }
                best_pre = Some(c.clone_exact());
            } else {
                proof {
                    lemma_version_order_flip(c@, best_pre->Some_0@);
                }
            }
        } else {
            let replace = match &best_nonpre {
                Option::None => true,
                Option::Some(b) => !matches!(c.compare(b), core::cmp::Ordering::Less),
            };
            if replace {
                proof {
                    lemma_version_eq_refl(c@);
                    if best_nonpre is Some {
                        let b = best_nonpre->Some_0;
                        lemma_version_order_flip(c@, b@);
                        assert forall|k: int|
                            0 <= k < i + 1 && (#[trigger] candidates@[k]@).pre.len() == 0
                                implies version_le(candidates@[k]@, c@) by {
                            if k < i {
                                lemma_version_le_trans(candidates@[k]@, b@, c@);
                            }
                        }
                    }
                }
                best_nonpre = Some(c.clone_exact());
            } else {
                proof {
                    lemma_version_order_flip(c@, best_nonpre->Some_0@);
                }
            }
        }
        i = i + 1;
    }
    match best_nonpre {
        Option::Some(v) => Some(v),
        Option::None => best_pre,
    }
}

// ---------------------------------------------------------------------------
// The dependencies a chosen release contributes.
// ---------------------------------------------------------------------------

/// What the resolver learns about a package at a version: either its
/// dependency requirements, or a reason the version cannot be used.
#[derive(Debug)]
pub enum DependencyDecision {
    /// The release exists and may be used; its requirements, keyed by
    /// package name.
    Available(Vec<(String, Range)>),
    /// The release is unknown or retired; a printable reason.
    Unavailable(String),
}

/// The first release whose version compares equal to `v`, or -1.
pub open spec fn release_idx(rs: Seq<Release<()>>, v: VersionView, i: int) -> int
    decreases rs.len() - i,
{
    if i < 0 || i >= rs.len() {
        -1
    } else if version_eq(rs[i].version@, v) {
        i
    } else {
        release_idx(rs, v, i + 1)
    }
}

/// Append `text` to `out`.
fn push_str(out: &mut String, text: &str)
    ensures
        final(out)@ == old(out)@ + text@,
{
    out.append(text);
}

/// The reason reported for a version that is not in the package's
/// releases.
pub open spec fn not_found_reason(package: Seq<char>, version: VersionView) -> Seq<char> {
    "version "@ + crate::version::version_str(version) + " of package "@ + package
        + " not found"@
}

/// The reason reported for a release that is retired and not locked.
pub open spec fn retired_reason(package: Seq<char>, version: VersionView) -> Seq<char> {
    "version "@ + crate::version::version_str(version) + " of package "@ + package
        + " is retired"@
}

/// Decide what dependencies a package contributes at a version: the
/// requirements of the release that carries the version, unless no such
/// release exists or the release is retired without being the locked
/// version of its package. Versions compare ignoring build metadata.
pub fn release_dependencies(package: &Package, version: &Version, locked: Option<&Version>) -> (r:
    DependencyDecision)
    ensures
        ({
            let idx = release_idx(package.releases@, version@, 0);
            let locked_ok = match locked {
                Option::Some(l) => version_eq(l@, version@),
                Option::None => false,
            };
            &&& idx == -1 ==> (r matches DependencyDecision::Unavailable(m) && m@
                == not_found_reason(package.name@, version@))
            &&& idx != -1 && package.releases@[idx].retirement_status is Some && !locked_ok
                ==> (r matches DependencyDecision::Unavailable(m) && m@ == retired_reason(
                package.name@,
                version@,
            ))
            &&& idx != -1 && (package.releases@[idx].retirement_status is None || locked_ok)
                ==> (r matches DependencyDecision::Available(deps) && {
                let reqs = package.releases@[idx].requirements;
                &&& deps@.len() == reqs@.len()
                &&& forall|k: int|
                    0 <= k < deps@.len() ==> range_entry_matches(
                        #[trigger] deps@[k],
                        (reqs@[k].0, reqs@[k].1.requirement),
                    )
            })
        }),
{
    let n = package.releases.len();
    let mut i: usize = 0;
    while i < n
        invariant
            0 <= i <= n,
            n == package.releases@.len(),
            release_idx(package.releases@, version@, 0) == release_idx(
                package.releases@,
                version@,
                i as int,
            ),
        decreases n - i,
    {
        let rel = &package.releases[i];
        if matches!(rel.version.compare(version), core::cmp::Ordering::Equal) {
            assert(release_idx(package.releases@, version@, i as int) == i);
            let locked_ok = match locked {
                Option::Some(l) => matches!(l.compare(version), core::cmp::Ordering::Equal),
                Option::None => false,
            };
            if rel.retirement_status.is_some() && !locked_ok {
                let mut msg = String::new();
                push_str(&mut msg, "version ");
                let vs = version.to_version_string();
                push_str(&mut msg, vs.as_str());
                push_str(&mut msg, " of package ");
                push_str(&mut msg, package.name.as_str());
                push_str(&mut msg, " is retired");
                assert(msg@ =~= retired_reason(package.name@, version@));
                return DependencyDecision::Unavailable(msg);
            }
            let mut deps: Vec<(String, Range)> = Vec::new();
            let mut k: usize = 0;
            while k < rel.requirements.len()
                invariant
                    0 <= k <= rel.requirements@.len(),
                    deps@.len() == k,
                    forall|j: int|
                        0 <= j < k ==> range_entry_matches(
                            #[trigger] deps@[j],
                            (rel.requirements@[j].0, rel.requirements@[j].1.requirement),
                        ),
                decreases rel.requirements@.len() - k,
            {
                let name = rel.requirements[k].0.clone();
                let rg = rel.requirements[k].1.requirement.duplicate();
                deps.push((name, rg));
                k = k + 1;
            }
            return DependencyDecision::Available(deps);
        }
        assert(release_idx(package.releases@, version@, i as int) == release_idx(
            package.releases@,
            version@,
            i + 1,
        ));
        i = i + 1;
    }
    let mut msg = String::new();
    push_str(&mut msg, "version ");
    let vs = version.to_version_string();
    push_str(&mut msg, vs.as_str());
    push_str(&mut msg, " of package ");
    push_str(&mut msg, package.name.as_str());
    push_str(&mut msg, " not found");
    assert(msg@ =~= not_found_reason(package.name@, version@));
    DependencyDecision::Unavailable(msg)
}

} // verus!
