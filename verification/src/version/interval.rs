//! The algebra that compiled requirements live in: a union of intervals
//! over the version order, each tagged with whether pre-release versions
//! may satisfy it.

use vstd::prelude::*;

use crate::version::{
    cmp_version, version_eq, version_le, version_lt, wf_version, Version, VersionView,
    lemma_cmp_ids_eq, lemma_version_order_flip, lemma_version_order_trans, clone_ids,
};

verus! {

/// One end of an interval.
#[derive(Debug, Clone)]
pub enum Edge {
    /// No bound on this side.
    Unbounded,
    /// The bound itself is inside the interval.
    Incl(Version),
    /// The bound itself is outside the interval.
    Excl(Version),
}

/// A contiguous run of versions. When `allow_pre` is false, pre-release
/// versions do not belong to the interval even when they lie between the
/// edges.
#[derive(Debug, Clone)]
pub struct Interval {
    pub lo: Edge,
    pub hi: Edge,
    pub allow_pre: bool,
}

/// A union of intervals: the compiled form of a requirement.
#[derive(Debug, Clone)]
pub struct Intervals {
    pub list: Vec<Interval>,
}

/// Whether `v` lies above the lower edge.
pub open spec fn above_lo(e: Edge, v: VersionView) -> bool {
    match e {
        Edge::Unbounded => true,
        Edge::Incl(b) => version_le(b@, v),
        Edge::Excl(b) => version_lt(b@, v),
    }
}

/// Whether `v` lies below the upper edge.
pub open spec fn below_hi(e: Edge, v: VersionView) -> bool {
    match e {
        Edge::Unbounded => true,
        Edge::Incl(b) => version_le(v, b@),
        Edge::Excl(b) => version_lt(v, b@),
    }
}

/// Whether `v` belongs to the interval.
pub open spec fn in_interval(i: Interval, v: VersionView) -> bool {
    above_lo(i.lo, v) && below_hi(i.hi, v) && (i.allow_pre || v.pre.len() == 0)
}

/// Whether `v` belongs to the union.
pub open spec fn member(list: Seq<Interval>, v: VersionView) -> bool {
    exists|k: int| 0 <= k < list.len() && in_interval(#[trigger] list[k], v)
}

// ---------------------------------------------------------------------------
// Order congruences used when edges compare equal.
// ---------------------------------------------------------------------------

/// Versions that compare equal are interchangeable on either side of the
/// order.
pub proof fn lemma_eq_compat(a: VersionView, b: VersionView, c: VersionView)
    requires
        version_eq(a, b),
    ensures
        cmp_version(a, c) == cmp_version(b, c),
        cmp_version(c, a) == cmp_version(c, b),
{
    lemma_cmp_ids_eq(a.pre, b.pre);
    assert(a.pre == b.pre);
    lemma_version_order_flip(a, c);
    lemma_version_order_flip(b, c);
}

// ---------------------------------------------------------------------------
// Executable membership.
// ---------------------------------------------------------------------------

fn version_le_exec(a: &Version, b: &Version) -> (r: bool)
    ensures
        r == version_le(a@, b@),
{
    !matches!(a.compare(b), core::cmp::Ordering::Greater)
}

fn version_lt_exec(a: &Version, b: &Version) -> (r: bool)
    ensures
        r == version_lt(a@, b@),
{
    matches!(a.compare(b), core::cmp::Ordering::Less)
}

fn above_lo_exec(e: &Edge, v: &Version) -> (r: bool)
    ensures
        r == above_lo(*e, v@),
{
    match e {
        Edge::Unbounded => true,
        Edge::Incl(b) => version_le_exec(b, v),
        Edge::Excl(b) => version_lt_exec(b, v),
    }
}

fn below_hi_exec(e: &Edge, v: &Version) -> (r: bool)
    ensures
        r == below_hi(*e, v@),
{
    match e {
        Edge::Unbounded => true,
        Edge::Incl(b) => version_le_exec(v, b),
        Edge::Excl(b) => version_lt_exec(v, b),
    }
}

fn clone_edge(e: &Edge) -> (r: Edge)
    ensures
        r is Unbounded <==> e is Unbounded,
        r matches Edge::Incl(b) ==> e matches Edge::Incl(b2) && b@ == b2@,
        r matches Edge::Excl(b) ==> e matches Edge::Excl(b2) && b@ == b2@,
        forall|v: VersionView| above_lo(r, v) == above_lo(*e, v),
        forall|v: VersionView| below_hi(r, v) == below_hi(*e, v),
{
    match e {
        Edge::Unbounded => Edge::Unbounded,
        Edge::Incl(b) => Edge::Incl(b.clone_exact()),
        Edge::Excl(b) => Edge::Excl(b.clone_exact()),
    }
}

impl Intervals {
    /// The empty union: no version belongs to it.
    pub fn none() -> (r: Intervals)
        ensures
            r.list@.len() == 0,
            forall|v: VersionView| !member(r.list@, v),
    {
        Intervals { list: Vec::new() }
    }

    /// Whether the version belongs to the compiled requirement.
    pub fn contains(&self, v: &Version) -> (r: bool)
        ensures
            r == member(self.list@, v@),
    {
        let mut k: usize = 0;
        while k < self.list.len()
            invariant
                0 <= k <= self.list@.len(),
                forall|j: int| 0 <= j < k ==> !in_interval(#[trigger] self.list@[j], v@),
            decreases self.list@.len() - k,
        {
            let iv = &self.list[k];
            let lo_ok = above_lo_exec(&iv.lo, v);
            let hi_ok = below_hi_exec(&iv.hi, v);
            let pre_ok = iv.allow_pre || v.pre.len() == 0;
            if lo_ok && hi_ok && pre_ok {
                assert(in_interval(self.list@[k as int], v@));
                return true;
            }
            k = k + 1;
        }
        false
    }

    /// The union of two compiled requirements.
    pub fn union(self, other: Intervals) -> (r: Intervals)
        ensures
            forall|v: VersionView|
                #[trigger] member(r.list@, v) == (member(self.list@, v) || member(other.list@, v)),
    {
        let ghost a = self.list@;
        let ghost b = other.list@;
        let mut list = self.list;
        let rest = other.list;
        let mut k: usize = 0;
        while k < rest.len()
            invariant
                0 <= k <= rest@.len(),
                rest@ == b,
                list@.len() == a.len() + k,
                forall|j: int| 0 <= j < a.len() ==> list@[j] == a[j],
                forall|j: int, v: VersionView|
                    a.len() <= j < list@.len() ==> #[trigger] in_interval(list@[j], v)
                        == in_interval(b[j - a.len()], v),
            decreases rest@.len() - k,
        {
            let iv = clone_interval(&rest[k]);
            list.push(iv);
            k = k + 1;
        }
        let r = Intervals { list };
        proof {
            assert forall|v: VersionView| #[trigger]
                member(r.list@, v) == (member(a, v) || member(b, v)) by {
                if member(r.list@, v) {
                    let j = choose|j: int| 0 <= j < r.list@.len() && in_interval(
                        #[trigger] r.list@[j],
                        v,
                    );
                    if j < a.len() {
                        assert(in_interval(a[j], v));
                    } else {
                        assert(in_interval(b[j - a.len()], v));
                    }
                }
                if member(a, v) {
                    let j = choose|j: int| 0 <= j < a.len() && in_interval(#[trigger] a[j], v);
                    assert(in_interval(r.list@[j], v));
                }
                if member(b, v) {
                    let j = choose|j: int| 0 <= j < b.len() && in_interval(#[trigger] b[j], v);
                    assert(in_interval(r.list@[a.len() + j], v));
                }
            }
        }
        r
    }

    /// An exact copy: it accepts the same versions.
    pub fn duplicate(&self) -> (r: Intervals)
        ensures
            forall|v: VersionView| #[trigger] member(r.list@, v) == member(self.list@, v),
    {
        let mut list: Vec<Interval> = Vec::new();
        let mut k: usize = 0;
        while k < self.list.len()
            invariant
                0 <= k <= self.list@.len(),
                list@.len() == k,
                forall|j: int, v: VersionView|
                    0 <= j < k ==> #[trigger] in_interval(list@[j], v) == in_interval(
                        self.list@[j],
                        v,
                    ),
            decreases self.list@.len() - k,
        {
            list.push(clone_interval(&self.list[k]));
            k = k + 1;
        }
        let r = Intervals { list };
        proof {
            assert forall|v: VersionView| #[trigger]
                member(r.list@, v) == member(self.list@, v) by {
                if member(r.list@, v) {
                    let j = choose|j: int| 0 <= j < r.list@.len() && in_interval(
                        #[trigger] r.list@[j],
                        v,
                    );
                    assert(in_interval(self.list@[j], v));
                }
                if member(self.list@, v) {
                    let j = choose|j: int| 0 <= j < self.list@.len() && in_interval(
                        #[trigger] self.list@[j],
                        v,
                    );
                    assert(in_interval(r.list@[j], v));
                }
            }
        }
        r
    }

    /// The intersection of two compiled requirements.
    pub fn intersect(&self, other: &Intervals) -> (r: Intervals)
        ensures
            forall|v: VersionView|
                #[trigger] member(r.list@, v) == (member(self.list@, v) && member(other.list@, v)),
    {
        let ghost a = self.list@;
        let ghost b = other.list@;
        let mut list: Vec<Interval> = Vec::new();
        let mut k: usize = 0;
        while k < self.list.len()
            invariant
                0 <= k <= a.len(),
                a == self.list@,
                b == other.list@,
                forall|v: VersionView|
                    #[trigger] member(list@, v) == (exists|i: int, j: int|
                        0 <= i < k && 0 <= j < b.len() && in_interval(#[trigger] a[i], v)
                            && in_interval(#[trigger] b[j], v)),
            decreases a.len() - k,
        {
            let mut m: usize = 0;
            while m < other.list.len()
                invariant
                    0 <= m <= b.len(),
                    0 <= k < a.len(),
                    a == self.list@,
                    b == other.list@,
                    forall|v: VersionView|
                        #[trigger] member(list@, v) == ((exists|i: int, j: int|
                            0 <= i < k && 0 <= j < b.len() && in_interval(#[trigger] a[i], v)
                                && in_interval(#[trigger] b[j], v)) || (exists|j: int|
                            0 <= j < m && in_interval(a[k as int], v) && in_interval(
                                #[trigger] b[j],
                                v,
                            ))),
                decreases b.len() - m,
            {
                let piece = intersect_intervals(&self.list[k], &other.list[m]);
                let ghost old_list = list@;
                list.push(piece);
                proof {
                    assert forall|v: VersionView| #[trigger]
                        member(list@, v) == (member(old_list, v) || (in_interval(a[k as int], v)
                            && in_interval(b[m as int], v))) by {
                        if member(list@, v) {
                            let j = choose|j: int| 0 <= j < list@.len() && in_interval(
                                #[trigger] list@[j],
                                v,
                            );
                            if j < old_list.len() {
                                assert(in_interval(old_list[j], v));
                            }
                        }
                        if member(old_list, v) {
                            let j = choose|j: int| 0 <= j < old_list.len() && in_interval(
                                #[trigger] old_list[j],
                                v,
                            );
                            assert(in_interval(list@[j], v));
                        }
                        if in_interval(a[k as int], v) && in_interval(b[m as int], v) {
                            assert(in_interval(list@[list@.len() - 1], v));
                        }
                    }
                }
                m = m + 1;
            }
            k = k + 1;
        }
        let r = Intervals { list };
        proof {
            assert forall|v: VersionView| #[trigger]
                member(r.list@, v) == (member(a, v) && member(b, v)) by {
                if member(a, v) && member(b, v) {
                    let i = choose|i: int| 0 <= i < a.len() && in_interval(#[trigger] a[i], v);
                    let j = choose|j: int| 0 <= j < b.len() && in_interval(#[trigger] b[j], v);
                    assert(0 <= i < a.len() && 0 <= j < b.len() && in_interval(a[i], v)
                        && in_interval(b[j], v));
                }
            }
        }
        r
    }
}

fn clone_interval(i: &Interval) -> (r: Interval)
    ensures
        forall|v: VersionView| in_interval(r, v) == in_interval(*i, v),
{
    Interval { lo: clone_edge(&i.lo), hi: clone_edge(&i.hi), allow_pre: i.allow_pre }
}

/// The lower edge of the intersection: whichever of the two cuts more off.
fn max_lo(a: &Edge, b: &Edge) -> (r: Edge)
    ensures
        forall|v: VersionView|
            #[trigger] above_lo(r, v) == (above_lo(*a, v) && above_lo(*b, v)),
{
    match (a, b) {
        (Edge::Unbounded, _) => clone_edge(b),
        (_, Edge::Unbounded) => clone_edge(a),
        (Edge::Incl(x), Edge::Incl(y)) => {
            let r = if matches!(x.compare(y), core::cmp::Ordering::Less) {
                clone_edge(b)
            } else {
                clone_edge(a)
            };
            proof {
                assert forall|v: VersionView| #[trigger]
                    above_lo(r, v) == (above_lo(*a, v) && above_lo(*b, v)) by {
                    lemma_order3(x@, y@, v);
                }
            }
            r
        },
        (Edge::Incl(x), Edge::Excl(y)) => {
            let r = if matches!(x.compare(y), core::cmp::Ordering::Greater) {
                clone_edge(a)
            } else {
                clone_edge(b)
            };
            proof {
                assert forall|v: VersionView| #[trigger]
                    above_lo(r, v) == (above_lo(*a, v) && above_lo(*b, v)) by {
                    lemma_order3(x@, y@, v);
                }
            }
            r
        },
        (Edge::Excl(x), Edge::Incl(y)) => {
            let r = if matches!(y.compare(x), core::cmp::Ordering::Greater) {
                clone_edge(b)
            } else {
                clone_edge(a)
            };
            proof {
                assert forall|v: VersionView| #[trigger]
                    above_lo(r, v) == (above_lo(*a, v) && above_lo(*b, v)) by {
                    lemma_order3(x@, y@, v);
                }
            }
            r
        },
        (Edge::Excl(x), Edge::Excl(y)) => {
            let r = if matches!(x.compare(y), core::cmp::Ordering::Less) {
                clone_edge(b)
            } else {
                clone_edge(a)
            };
            proof {
                assert forall|v: VersionView| #[trigger]
                    above_lo(r, v) == (above_lo(*a, v) && above_lo(*b, v)) by {
                    lemma_order3(x@, y@, v);
                }
            }
            r
        },
    }
}

/// The upper edge of the intersection: whichever of the two cuts more off.
fn min_hi(a: &Edge, b: &Edge) -> (r: Edge)
    ensures
        forall|v: VersionView|
            #[trigger] below_hi(r, v) == (below_hi(*a, v) && below_hi(*b, v)),
{
    match (a, b) {
        (Edge::Unbounded, _) => clone_edge(b),
        (_, Edge::Unbounded) => clone_edge(a),
        (Edge::Incl(x), Edge::Incl(y)) => {
            let r = if matches!(x.compare(y), core::cmp::Ordering::Greater) {
                clone_edge(b)
            } else {
                clone_edge(a)
            };
            proof {
                assert forall|v: VersionView| #[trigger]
                    below_hi(r, v) == (below_hi(*a, v) && below_hi(*b, v)) by {
                    lemma_order3(x@, y@, v);
                }
            }
            r
        },
        (Edge::Incl(x), Edge::Excl(y)) => {
            let r = if matches!(x.compare(y), core::cmp::Ordering::Less) {
                clone_edge(a)
            } else {
                clone_edge(b)
            };
            proof {
                assert forall|v: VersionView| #[trigger]
                    below_hi(r, v) == (below_hi(*a, v) && below_hi(*b, v)) by {
                    lemma_order3(x@, y@, v);
                }
            }
            r
        },
        (Edge::Excl(x), Edge::Incl(y)) => {
            let r = if matches!(y.compare(x), core::cmp::Ordering::Less) {
                clone_edge(b)
            } else {
                clone_edge(a)
            };
            proof {
                assert forall|v: VersionView| #[trigger]
                    below_hi(r, v) == (below_hi(*a, v) && below_hi(*b, v)) by {
                    lemma_order3(x@, y@, v);
                }
            }
            r
        },
        (Edge::Excl(x), Edge::Excl(y)) => {
            let r = if matches!(x.compare(y), core::cmp::Ordering::Greater) {
                clone_edge(b)
            } else {
                clone_edge(a)
            };
            proof {
                assert forall|v: VersionView| #[trigger]
                    below_hi(r, v) == (below_hi(*a, v) && below_hi(*b, v)) by {
                    lemma_order3(x@, y@, v);
                }
            }
            r
        },
    }
}

/// Every flip, transitivity and equal-compatibility fact about three
/// versions, so edge comparisons can pick either bound.
proof fn lemma_order3(a: VersionView, b: VersionView, c: VersionView)
    ensures
        cmp_version(b, a) == crate::version::flip(cmp_version(a, b)),
        cmp_version(c, b) == crate::version::flip(cmp_version(b, c)),
        cmp_version(c, a) == crate::version::flip(cmp_version(a, c)),
        version_lt(a, b) && version_lt(b, c) ==> version_lt(a, c),
        version_lt(b, c) && version_lt(c, a) ==> version_lt(b, a),
        version_lt(c, a) && version_lt(a, b) ==> version_lt(c, b),
        version_lt(b, a) && version_lt(a, c) ==> version_lt(b, c),
        version_lt(a, c) && version_lt(c, b) ==> version_lt(a, b),
        version_lt(c, b) && version_lt(b, a) ==> version_lt(c, a),
        version_eq(a, b) ==> cmp_version(a, c) == cmp_version(b, c) && cmp_version(c, a)
            == cmp_version(c, b),
        version_eq(b, c) ==> cmp_version(b, a) == cmp_version(c, a) && cmp_version(a, b)
            == cmp_version(a, c),
        version_eq(a, c) ==> cmp_version(a, b) == cmp_version(c, b) && cmp_version(b, a)
            == cmp_version(b, c),
{
    lemma_version_order_flip(a, b);
    lemma_version_order_flip(b, c);
    lemma_version_order_flip(a, c);
    if version_lt(a, b) && version_lt(b, c) {
        lemma_version_order_trans(a, b, c);
    }
    if version_lt(b, c) && version_lt(c, a) {
        lemma_version_order_trans(b, c, a);
    }
    if version_lt(c, a) && version_lt(a, b) {
        lemma_version_order_trans(c, a, b);
    }
    if version_lt(b, a) && version_lt(a, c) {
        lemma_version_order_trans(b, a, c);
    }
    if version_lt(a, c) && version_lt(c, b) {
        lemma_version_order_trans(a, c, b);
    }
    if version_lt(c, b) && version_lt(b, a) {
        lemma_version_order_trans(c, b, a);
    }
    if version_eq(a, b) {
        lemma_eq_compat(a, b, c);
    }
    if version_eq(b, c) {
        lemma_eq_compat(b, c, a);
    }
    if version_eq(a, c) {
        lemma_eq_compat(a, c, b);
    }
}

fn intersect_intervals(a: &Interval, b: &Interval) -> (r: Interval)
    ensures
        forall|v: VersionView|
            #[trigger] in_interval(r, v) == (in_interval(*a, v) && in_interval(*b, v)),
{
    Interval {
        lo: max_lo(&a.lo, &b.lo),
        hi: min_hi(&a.hi, &b.hi),
        allow_pre: a.allow_pre && b.allow_pre,
    }
}

impl Version {
    /// An exact copy, field for field.
    pub fn clone_exact(&self) -> (r: Version)
        ensures
            r@ == self@,
    {
        let b = match &self.build {
            Option::None => Option::None,
            Option::Some(s) => Option::Some(s.clone()),
        };
        let r = Version {
            major: self.major,
            minor: self.minor,
            patch: self.patch,
            pre: clone_ids(&self.pre),
            build: b,
        };
        assert(r@ =~~= self@);
        r
    }
}

/// The compiled range that accepts exactly the given version (and versions
/// that compare equal to it: build metadata does not distinguish them).
pub fn exact(v: Version) -> (r: Intervals)
    ensures
        forall|w: VersionView| #[trigger] member(r.list@, w) == version_eq(w, v@),
{
    let hi = v.clone_exact();
    let iv = Interval { lo: Edge::Incl(v), hi: Edge::Incl(hi), allow_pre: true };
    let mut list: Vec<Interval> = Vec::new();
    list.push(iv);
    let r = Intervals { list };
    proof {
        assert forall|w: VersionView| #[trigger]
            member(r.list@, w) == version_eq(w, v@) by {
            assert(r.list@[0] == iv);
            lemma_version_order_flip(v@, w);
            if version_eq(w, v@) {
                assert(in_interval(iv, w));
            }
        }
    }
    r
}

} // verus!
