//! Client-side core of a Hex-style package registry: a SemVer-variant
//! version and requirement language, the decisions of a dependency
//! resolver, and verification of signed repository payloads.

pub mod api;
pub mod payload;
pub mod proto;
pub mod version;

pub use api::ApiError;
pub use api::validate_package_and_version;
pub use payload::read_and_check_body;
pub use payload::verify_signed_payload;

use vstd::prelude::*;

use crate::version::parser::Range;

verus! {

/// Why a release was retired.
#[derive(Debug, PartialEq, Eq, Clone)]
pub enum RetirementReason {
    Other,
    Invalid,
    Security,
    Deprecated,
    Renamed,
}

impl RetirementReason {
    /// The wire name of the reason.
    pub fn to_str(&self) -> (r: &'static str)
        ensures
            match *self {
                RetirementReason::Other => r@ == "other"@,
                RetirementReason::Invalid => r@ == "invalid"@,
                RetirementReason::Security => r@ == "security"@,
                RetirementReason::Deprecated => r@ == "deprecated"@,
                RetirementReason::Renamed => r@ == "renamed"@,
            },
    {
        match self {
            RetirementReason::Other => "other",
            RetirementReason::Invalid => "invalid",
            RetirementReason::Security => "security",
            RetirementReason::Deprecated => "deprecated",
            RetirementReason::Renamed => "renamed",
        }
    }
}

/// A release marked unusable by its publisher, with the reason and a free
/// message.
#[derive(Debug, PartialEq, Eq, Clone)]
pub struct RetirementStatus {
    pub reason: RetirementReason,
    pub message: String,
}

/// One dependency of a release.
#[derive(Debug, Clone)]
pub struct Dependency {
    /// Version requirement of the dependency.
    pub requirement: Range,
    /// If true the package is optional and does not need to be resolved
    /// unless another package names it as a non-optional dependency.
    pub optional: bool,
    /// The OTP application name of the dependency, when it differs from
    /// the package name.
    pub app: Option<String>,
    /// The repository the dependency lives in, when not the default one.
    pub repository: Option<String>,
}

/// One release of a package.
#[derive(Debug, Clone)]
pub struct Release<Meta> {
    /// Release version.
    pub version: version::Version,
    /// All dependencies of the release, keyed by package name.
    pub requirements: Vec<(String, Dependency)>,
    /// If set the release is retired; a retired release should only be
    /// resolved if it has already been locked in a project.
    pub retirement_status: Option<RetirementStatus>,
    /// SHA-256 checksum of the outer package tarball.
    pub outer_checksum: Vec<u8>,
    /// Endpoint-specific extra data; absent on some endpoints.
    pub meta: Meta,
}

impl<Meta> Release<Meta> {
    /// Whether the release has been retired by its publisher.
    pub fn is_retired(&self) -> (r: bool)
        ensures
            r == self.retirement_status is Some,
    {
        self.retirement_status.is_some()
    }

    /// Whether this is a pre-release.
    pub fn is_pre(&self) -> (r: bool)
        ensures
            r == (self.version@.pre.len() != 0),
    {
        self.version.is_pre()
    }
}

/// A package and its releases, as the repository reports them.
#[derive(Debug, Clone)]
pub struct Package {
    pub name: String,
    pub repository: String,
    pub releases: Vec<Release<()>>,
}

/// The extra data the release endpoint reports.
#[derive(Debug, PartialEq, Eq, Clone)]
pub struct ReleaseMeta {
    pub app: String,
    pub build_tools: Vec<String>,
}

/// How much a package owner may do.
#[derive(Debug, Clone, Copy, PartialEq, Eq)]
pub enum OwnerLevel {
    /// Every package permission except changing who owns the package.
    Maintainer,
    /// Every package permission, ownership changes included.
    Full,
}

impl OwnerLevel {
    /// The wire name of the level.
    pub fn to_str(&self) -> (r: &'static str)
        ensures
            match *self {
                OwnerLevel::Maintainer => r@ == "maintainer"@,
                OwnerLevel::Full => r@ == "full"@,
            },
    {
        match self {
            OwnerLevel::Maintainer => "maintainer",
            OwnerLevel::Full => "full",
        }
    }
}

// ---------------------------------------------------------------------------
// From the wire messages to the domain model.
// ---------------------------------------------------------------------------

/// How a domain retirement reason corresponds to a wire one.
pub open spec fn reason_converted(a: RetirementReason, b: proto::package::RetirementReason) -> bool {
    match b {
        proto::package::RetirementReason::RetiredOther => a is Other,
        proto::package::RetirementReason::RetiredInvalid => a is Invalid,
        proto::package::RetirementReason::RetiredSecurity => a is Security,
        proto::package::RetirementReason::RetiredDeprecated => a is Deprecated,
        proto::package::RetirementReason::RetiredRenamed => a is Renamed,
    }
}

/// Map a wire retirement reason to the domain one.
pub fn proto_to_retirement_reason(reason: proto::package::RetirementReason) -> (r:
    RetirementReason)
    ensures
        reason_converted(r, reason),
{
    match reason {
        proto::package::RetirementReason::RetiredOther => RetirementReason::Other,
        proto::package::RetirementReason::RetiredInvalid => RetirementReason::Invalid,
        proto::package::RetirementReason::RetiredSecurity => RetirementReason::Security,
        proto::package::RetirementReason::RetiredDeprecated => RetirementReason::Deprecated,
        proto::package::RetirementReason::RetiredRenamed => RetirementReason::Renamed,
    }
}

/// How a domain retirement notice corresponds to a wire one: reason and
/// message default as the wire format does.
pub open spec fn retirement_converted(
    a: Option<RetirementStatus>,
    b: Option<proto::package::RetirementStatus>,
) -> bool {
    match (a, b) {
        (Option::None, Option::None) => true,
        (Option::Some(x), Option::Some(y)) => {
            &&& reason_converted(
                x.reason,
                match y.reason {
                    Option::Some(w) => w,
                    Option::None => proto::package::RetirementReason::RetiredOther,
                },
            )
            &&& x.message@ == match y.message {
                Option::Some(m) => m@,
                Option::None => Seq::<char>::empty(),
            }
        },
        _ => false,
    }
}

/// Map a wire retirement notice to the domain one.
pub fn proto_to_retirement_status(status: Option<proto::package::RetirementStatus>) -> (r: Option<
    RetirementStatus,
>)
    ensures
        retirement_converted(r, status),
{
    match status {
        Option::None => None,
        Option::Some(stat) => {
            let message = stat.message().to_owned();
            let reason = proto_to_retirement_reason(stat.reason());
            Some(RetirementStatus { reason, message })
        },
    }
}

/// How a named domain dependency corresponds to a wire one. A dependency
/// counts as optional exactly when the wire carried the optional field at
/// all.
pub open spec fn dep_converted(e: (String, Dependency), d: proto::package::Dependency) -> bool {
    &&& e.0@ == d.package@
    &&& e.1.requirement.text() == d.requirement@
    &&& e.1.requirement.wf()
    &&& e.1.optional == (d.optional is Some)
    &&& match (e.1.app, d.app) {
        (Option::None, Option::None) => true,
        (Option::Some(x), Option::Some(y)) => x@ == y@,
        _ => false,
    }
    &&& match (e.1.repository, d.repository) {
        (Option::None, Option::None) => true,
        (Option::Some(x), Option::Some(y)) => x@ == y@,
        _ => false,
    }
}

/// Map a wire dependency to a named domain dependency; its requirement
/// string must be a valid range.
pub fn proto_to_dep(dep: proto::package::Dependency) -> (r: Result<(String, Dependency), ApiError>)
    ensures
        r is Ok <==> version::parser::range_accepted(dep.requirement@),
        r matches Ok(e) ==> dep_converted(e, dep),
        r matches Err(e) ==> e matches ApiError::InvalidVersionFormat(t) && t@ == dep.requirement@,
{
    let req_text = dep.requirement.clone();
    let requirement = match version::parser::Range::new(dep.requirement) {
        Result::Ok(x) => x,
        Result::Err(_) => {
            return Result::Err(ApiError::InvalidVersionFormat(req_text));
        },
    };
    let d = Dependency { requirement, optional: dep.optional.is_some(), app: dep.app, repository: dep.repository };
    Result::Ok((dep.package, d))
}

/// Whether a wire release can be converted: its version parses and every
/// dependency requirement is a valid range.
pub open spec fn release_ok(b: proto::package::Release) -> bool {
    &&& version::parser::version_lit_end(b.version@, 0) == b.version@.len()
    &&& forall|k: int|
        0 <= k < b.dependencies@.len() ==> version::parser::range_accepted(
            (#[trigger] b.dependencies@[k]).requirement@,
        )
}

/// Whether `t` is a string that stops the given wire release from
/// converting: its unparsable version, or an unacceptable dependency
/// requirement.
pub open spec fn release_err_text(b: proto::package::Release, t: Seq<char>) -> bool {
    ||| (t == b.version@ && version::parser::version_lit_end(t, 0) != t.len())
    ||| (exists|k: int|
        0 <= k < b.dependencies@.len() && t == (#[trigger] b.dependencies@[k]).requirement@
            && !version::parser::range_accepted(t))
}

/// How a domain release corresponds to a wire one.
pub open spec fn release_converted(a: Release<()>, b: proto::package::Release) -> bool {
    &&& version::wf_version(a.version@)
    &&& version::version_str(a.version@) == b.version@
    &&& a.requirements@.len() == b.dependencies@.len()
    &&& forall|k: int|
        0 <= k < a.requirements@.len() ==> dep_converted(
            #[trigger] a.requirements@[k],
            b.dependencies@[k],
        )
    &&& retirement_converted(a.retirement_status, b.retired)
    &&& a.outer_checksum@ == match b.outer_checksum {
        Option::Some(c) => c@,
        Option::None => Seq::<u8>::empty(),
    }
}

/// Map a wire release to the domain model; the version and every
/// requirement must parse.
pub fn proto_to_release(release: proto::package::Release) -> (r: Result<Release<()>, ApiError>)
    ensures
        r is Ok <==> release_ok(release),
        r matches Ok(rel) ==> release_converted(rel, release),
        r matches Err(e) ==> e matches ApiError::InvalidVersionFormat(t) && release_err_text(
            release,
            t@,
        ),
{
    let version = match version::Version::parse(release.version.as_str()) {
        Result::Ok(v) => v,
        Result::Err(_) => {
            return Result::Err(ApiError::InvalidVersionFormat(release.version));
        },
    };
    let mut requirements: Vec<(String, Dependency)> = Vec::new();
    let mut rest = release.dependencies;
    let ghost deps_view = rest@;
    let ghost k: int = 0;
    while rest.len() > 0
        invariant
            0 <= k <= deps_view.len(),
            deps_view == release.dependencies@,
            rest@ =~= deps_view.skip(k),
            requirements@.len() == k,
            forall|j: int|
                0 <= j < k ==> dep_converted(#[trigger] requirements@[j], deps_view[j]),
            forall|j: int|
                0 <= j < k ==> version::parser::range_accepted(
                    (#[trigger] deps_view[j]).requirement@,
                ),
        decreases rest@.len(),
    {
        let dep = rest.remove(0);
        assert(dep == deps_view[k]);
        proof {
            assert(rest@ =~= deps_view.skip(k + 1));
        }
        match proto_to_dep(dep) {
            Result::Ok(e) => {
                requirements.push(e);
            },
            Result::Err(err) => {
                assert(!version::parser::range_accepted(
                    (deps_view[k]).requirement@,
                ));
                return Result::Err(err);
            },
        }
        proof {
            k = k + 1;
        }
    }
    assert(deps_view.skip(k).len() == 0);
    let outer_checksum = match release.outer_checksum {
        Option::Some(c) => c,
        Option::None => Vec::new(),
    };
    let retirement_status = proto_to_retirement_status(release.retired);
    Result::Ok(Release { version, requirements, retirement_status, outer_checksum, meta: () })
}

/// How a domain package corresponds to a wire one.
pub open spec fn package_converted(a: Package, b: proto::package::Package) -> bool {
    &&& a.name@ == b.name@
    &&& a.repository@ == b.repository@
    &&& a.releases@.len() == b.releases@.len()
    &&& forall|k: int|
        0 <= k < a.releases@.len() ==> release_converted(
            #[trigger] a.releases@[k],
            b.releases@[k],
        )
}

/// Map a wire package record to the domain model; every release must
/// convert.
pub fn package_from_proto(package: proto::package::Package) -> (r: Result<Package, ApiError>)
    ensures
        r is Ok <==> forall|k: int|
            0 <= k < package.releases@.len() ==> release_ok(#[trigger] package.releases@[k]),
        r matches Ok(p) ==> package_converted(p, package),
        r matches Err(e) ==> e matches ApiError::InvalidVersionFormat(t) && exists|k: int|
            0 <= k < package.releases@.len() && release_err_text(
                #[trigger] package.releases@[k],
                t@,
            ),
{
    let mut releases: Vec<Release<()>> = Vec::new();
    let mut rest = package.releases;
    let ghost rels_view = rest@;
    let ghost k: int = 0;
    while rest.len() > 0
        invariant
            0 <= k <= rels_view.len(),
            rels_view == package.releases@,
            rest@ =~= rels_view.skip(k),
            releases@.len() == k,
            forall|j: int|
                0 <= j < k ==> release_converted(#[trigger] releases@[j], rels_view[j]),
            forall|j: int| 0 <= j < k ==> release_ok(#[trigger] rels_view[j]),
        decreases rest@.len(),
    {
        let rel = rest.remove(0);
        assert(rel == rels_view[k]);
        proof {
            assert(rest@ =~= rels_view.skip(k + 1));
        }
        match proto_to_release(rel) {
            Result::Ok(x) => {
                releases.push(x);
            },
            Result::Err(err) => {
                assert(!release_ok(rels_view[k]));
                return Result::Err(err);
            },
        }
        proof {
            k = k + 1;
        }
    }
    assert(rels_view.skip(k).len() == 0);
    Result::Ok(Package { name: package.name, repository: package.repository, releases })
}

/// Whether every version string of a listing parses.
pub open spec fn listing_ok(pkgs: Seq<proto::versions::Package>) -> bool {
    forall|i: int, j: int|
        0 <= i < pkgs.len() && 0 <= j < pkgs[i].versions@.len()
            ==> version::parser::version_lit_end(
            (#[trigger] pkgs[i].versions@[j])@,
            0,
        ) == pkgs[i].versions@[j]@.len()
}

/// Map the repository's version listing to parsed versions; every
/// version string must parse.
pub fn versions_from_proto(listing: proto::versions::Versions) -> (r: Result<
    Vec<(String, Vec<version::Version>)>,
    ApiError,
>)
    ensures
        r is Ok <==> listing_ok(listing.packages@),
        r matches Ok(out) ==> {
            let pkgs = listing.packages@;
            &&& out@.len() == pkgs.len()
            &&& forall|i: int| 0 <= i < pkgs.len() ==> (#[trigger] out@[i]).0@ == pkgs[i].name@
            &&& forall|i: int|
                0 <= i < pkgs.len() ==> (#[trigger] out@[i]).1@.len() == pkgs[i].versions@.len()
            &&& forall|i: int, j: int|
                0 <= i < pkgs.len() && 0 <= j < pkgs[i].versions@.len() ==> version::wf_version(
                    (#[trigger] out@[i].1@[j])@,
                ) && version::version_str(out@[i].1@[j]@) == pkgs[i].versions@[j]@
        },
        r matches Err(e) ==> e matches ApiError::InvalidVersionFormat(t) && exists|i: int, j: int|
            0 <= i < listing.packages@.len() && 0 <= j < listing.packages@[i].versions@.len()
                && t@ == (#[trigger] listing.packages@[i].versions@[j])@
                && version::parser::version_lit_end(t@, 0) != t@.len(),
{
    let mut out: Vec<(String, Vec<version::Version>)> = Vec::new();
    let pkgs = listing.packages;
    let ghost pkgs_view = pkgs@;
    let mut i: usize = 0;
    while i < pkgs.len()
        invariant
            0 <= i <= pkgs_view.len(),
            pkgs@ == pkgs_view,
            pkgs_view == listing.packages@,
            out@.len() == i,
            forall|a: int| 0 <= a < i ==> (#[trigger] out@[a]).0@ == pkgs_view[a].name@,
            forall|a: int|
                0 <= a < i ==> (#[trigger] out@[a]).1@.len() == pkgs_view[a].versions@.len(),
            forall|a: int, b: int|
                0 <= a < i && 0 <= b < pkgs_view[a].versions@.len() ==> version::wf_version(
                    (#[trigger] out@[a].1@[b])@,
                ) && version::version_str(out@[a].1@[b]@) == pkgs_view[a].versions@[b]@,
            forall|a: int, b: int|
                0 <= a < i && 0 <= b < pkgs_view[a].versions@.len()
                    ==> version::parser::version_lit_end((#[trigger] pkgs_view[a].versions@[b])@, 0)
                    == pkgs_view[a].versions@[b]@.len(),
        decreases pkgs_view.len() - i,
    {
        let p = &pkgs[i];
        let mut parsed: Vec<version::Version> = Vec::new();
        let mut j: usize = 0;
        while j < p.versions.len()
            invariant
                0 <= j <= p.versions@.len(),
                0 <= i < pkgs_view.len(),
                pkgs@ == pkgs_view,
                pkgs_view == listing.packages@,
                p == &pkgs[i as int],
                parsed@.len() == j,
                forall|b: int|
                    0 <= b < j ==> version::wf_version((#[trigger] parsed@[b])@)
                        && version::version_str(parsed@[b]@) == p.versions@[b]@,
                forall|b: int|
                    0 <= b < j ==> version::parser::version_lit_end(
                        (#[trigger] p.versions@[b])@,
                        0,
                    ) == p.versions@[b]@.len(),
            decreases p.versions@.len() - j,
        {
            match version::Version::parse(p.versions[j].as_str()) {
                Result::Ok(v) => {
                    parsed.push(v);
                },
                Result::Err(_) => {
                    proof {
                        assert(version::parser::version_lit_end(p.versions@[j as int]@, 0)
                            != p.versions@[j as int]@.len());
                        assert(!listing_ok(pkgs_view));
                    }
                    let bad = p.versions[j].clone();
                    return Result::Err(ApiError::InvalidVersionFormat(bad));
                },
            }
            j = j + 1;
        }
        let name = p.name.clone();
        out.push((name, parsed));
        i = i + 1;
    }
    Result::Ok(out)
}

} // verus!
