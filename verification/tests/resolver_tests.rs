//! Resolver scenarios: the verified decision functions drive a PubGrub
//! search exactly as the transport layer does.

use std::cell::RefCell;
use std::cmp::Reverse;
use std::collections::HashMap;
use std::ops::Bound;

use hexpm::version::interval::Edge;
use hexpm::version::{
    canonical_release_order, pick_version, release_dependencies, root_dependencies,
    DependencyDecision, FetchError, PackageFetcher, Range, Version,
};
use hexpm::{Dependency, Package, Release};
use pubgrub::{Dependencies, PackageResolutionStatistics, Ranges};

fn v(s: &str) -> Version {
    Version::parse(s).unwrap()
}

fn range(s: &str) -> Range {
    Range::new(s.to_string()).unwrap()
}

/// A version under the order the library defines, for PubGrub's benefit.
#[derive(Clone, Debug)]
struct Key(Version);

impl std::fmt::Display for Key {
    fn fmt(&self, f: &mut std::fmt::Formatter<'_>) -> std::fmt::Result {
        f.write_str(&self.0.to_version_string())
    }
}

impl PartialEq for Key {
    fn eq(&self, other: &Key) -> bool {
        self.0.compare(&other.0) == std::cmp::Ordering::Equal
    }
}

impl Eq for Key {}

impl PartialOrd for Key {
    fn partial_cmp(&self, other: &Key) -> Option<std::cmp::Ordering> {
        Some(self.0.compare(&other.0))
    }
}

impl Ord for Key {
    fn cmp(&self, other: &Key) -> std::cmp::Ordering {
        self.0.compare(&other.0)
    }
}

fn to_ranges(r: &Range) -> Ranges<Key> {
    let iv = r.to_intervals();
    let mut out = Ranges::empty();
    for interval in iv.list {
        let lo = match interval.lo {
            Edge::Unbounded => Bound::Unbounded,
            Edge::Incl(b) => Bound::Included(Key(b)),
            Edge::Excl(b) => Bound::Excluded(Key(b)),
        };
        let hi = match interval.hi {
            Edge::Unbounded => Bound::Unbounded,
            Edge::Incl(b) => Bound::Included(Key(b)),
            Edge::Excl(b) => Bound::Excluded(Key(b)),
        };
        out = out.union(&Ranges::from_range_bounds::<_, Key>((lo, hi)));
    }
    out
}

#[derive(Debug)]
struct Fail(String);

impl std::fmt::Display for Fail {
    fn fmt(&self, f: &mut std::fmt::Formatter<'_>) -> std::fmt::Result {
        f.write_str(&self.0)
    }
}

impl std::error::Error for Fail {}

struct StaticFetcher {
    packages: Vec<Package>,
}

impl PackageFetcher for StaticFetcher {
    fn get_dependencies(&self, package: &str) -> Result<Package, FetchError> {
        self.packages
            .iter()
            .find(|p| p.name == package)
            .cloned()
            .ok_or_else(|| FetchError(format!("unknown package {}", package)))
    }
}

struct Provider {
    fetcher: StaticFetcher,
    cache: RefCell<HashMap<String, Package>>,
    locked: Vec<(String, Version)>,
}

impl Provider {
    fn ensure(&self, name: &str) -> Result<(), Fail> {
        if !self.cache.borrow().contains_key(name) {
            let mut package = self
                .fetcher
                .get_dependencies(name)
                .map_err(|e| Fail(e.0))?;
            package.releases = canonical_release_order(package.releases);
            self.cache.borrow_mut().insert(name.to_string(), package);
        }
        Ok(())
    }

    fn locked_version(&self, name: &str) -> Option<Version> {
        self.locked
            .iter()
            .find(|(n, _)| n == name)
            .map(|(_, v)| v.clone())
    }
}

impl pubgrub::DependencyProvider for Provider {
    type P = String;
    type V = Key;
    type VS = Ranges<Key>;
    type M = String;
    type Priority = Reverse<usize>;
    type Err = Fail;

    fn prioritize(
        &self,
        package: &String,
        range: &Ranges<Key>,
        _stats: &PackageResolutionStatistics,
    ) -> Reverse<usize> {
        let cache = self.cache.borrow();
        let count = cache
            .get(package)
            .into_iter()
            .flat_map(|p| p.releases.iter())
            .filter(|r| range.contains(&Key(r.version.clone())))
            .count();
        Reverse(count)
    }

    fn choose_version(
        &self,
        package: &String,
        range: &Ranges<Key>,
    ) -> Result<Option<Key>, Fail> {
        self.ensure(package)?;
        let cache = self.cache.borrow();
        let candidates: Vec<Version> = cache
            .get(package)
            .into_iter()
            .flat_map(|p| p.releases.iter())
            .filter(|r| range.contains(&Key(r.version.clone())))
            .map(|r| r.version.clone())
            .collect();
        Ok(pick_version(&candidates).map(Key))
    }

    fn get_dependencies(
        &self,
        package: &String,
        version: &Key,
    ) -> Result<Dependencies<String, Ranges<Key>, String>, Fail> {
        self.ensure(package)?;
        let cache = self.cache.borrow();
        let pkg = cache.get(package).expect("package fetched");
        let locked = self.locked_version(package);
        match release_dependencies(pkg, &version.0, locked.as_ref()) {
            DependencyDecision::Available(deps) => {
                let mut out = pubgrub::Map::default();
                for (name, rg) in deps {
                    out.insert(name, to_ranges(&rg));
                }
                Ok(Dependencies::Available(out))
            }
            DependencyDecision::Unavailable(reason) => Ok(Dependencies::Unavailable(reason)),
        }
    }
}

#[derive(Debug)]
enum ResolveOutcome {
    Solved(HashMap<String, Version>),
    Incompatible {
        package: String,
        requirement: String,
        version: String,
    },
    NoSolution,
}

fn resolve(
    packages: Vec<Package>,
    root_requirements: Vec<(String, Range)>,
    locked: Vec<(String, Version)>,
) -> ResolveOutcome {
    let root_deps = match root_dependencies(root_requirements, &locked) {
        Ok(deps) => deps,
        Err(e) => {
            return ResolveOutcome::Incompatible {
                package: e.package,
                requirement: e.requirement.to_display_string(),
                version: e.version.to_version_string(),
            }
        }
    };
    let root_name = "the_app".to_string();
    let root_version = Version::new(0, 0, 0);
    let root_package = Package {
        name: root_name.clone(),
        repository: "local".to_string(),
        releases: vec![Release {
            version: root_version.clone(),
            requirements: root_deps,
            retirement_status: None,
            outer_checksum: vec![],
            meta: (),
        }],
    };
    let mut cache = HashMap::new();
    cache.insert(root_name.clone(), root_package);
    let provider = Provider {
        fetcher: StaticFetcher { packages },
        cache: RefCell::new(cache),
        locked,
    };
    match pubgrub::resolve(&provider, root_name.clone(), Key(root_version)) {
        Ok(solution) => ResolveOutcome::Solved(
            solution
                .into_iter()
                .filter(|(name, _)| name != &root_name)
                .map(|(name, key)| (name, key.0))
                .collect(),
        ),
        Err(_) => ResolveOutcome::NoSolution,
    }
}

fn release(version: &str, deps: Vec<(&str, &str)>) -> Release<()> {
    Release {
        version: v(version),
        requirements: deps
            .into_iter()
            .map(|(name, req)| (name.to_string(), Dependency::from_range(range(req))))
            .collect(),
        retirement_status: None,
        outer_checksum: vec![],
        meta: (),
    }
}

fn package(name: &str, releases: Vec<Release<()>>) -> Package {
    Package {
        name: name.to_string(),
        repository: "hexpm".to_string(),
        releases,
    }
}

fn solved(outcome: ResolveOutcome) -> HashMap<String, Version> {
    match outcome {
        ResolveOutcome::Solved(m) => m,
        other => panic!("expected a solution, got {:?}", other),
    }
}

#[test]
fn picks_newest_and_follows_dependencies() {
    let packages = vec![
        package("a", vec![release("1.0.0", vec![]), release("1.1.0", vec![("b", "~> 1.0")])]),
        package("b", vec![release("1.0.0", vec![])]),
    ];
    let got = solved(resolve(
        packages,
        vec![("a".to_string(), range(">= 1.0.0"))],
        vec![],
    ));
    let want: HashMap<String, Version> =
        [("a".to_string(), v("1.1.0")), ("b".to_string(), v("1.0.0"))].into_iter().collect();
    assert_eq!(got, want);
}

#[test]
fn locked_version_wins_and_prunes() {
    let packages = vec![
        package("a", vec![release("1.0.0", vec![]), release("1.1.0", vec![("b", "~> 1.0")])]),
        package("b", vec![release("1.0.0", vec![])]),
    ];
    let got = solved(resolve(
        packages,
        vec![("a".to_string(), range(">= 1.0.0"))],
        vec![("a".to_string(), v("1.0.0"))],
    ));
    // b is not pulled: a@1.0.0 has no dependencies.
    let want: HashMap<String, Version> = [("a".to_string(), v("1.0.0"))].into_iter().collect();
    assert_eq!(got, want);
}

#[test]
fn pre_release_not_chosen_when_non_pre_satisfies() {
    let packages = vec![package(
        "a",
        vec![release("1.0.0", vec![]), release("2.0.0-rc1", vec![])],
    )];
    let got = solved(resolve(
        packages,
        vec![("a".to_string(), range(">= 1.0.0"))],
        vec![],
    ));
    let want: HashMap<String, Version> = [("a".to_string(), v("1.0.0"))].into_iter().collect();
    assert_eq!(got, want);
}

#[test]
fn pre_release_chosen_when_nothing_else_satisfies() {
    let packages = vec![package("a", vec![release("2.0.0-rc1", vec![])])];
    let got = solved(resolve(
        packages,
        vec![("a".to_string(), range(">= 1.0.0"))],
        vec![],
    ));
    let want: HashMap<String, Version> =
        [("a".to_string(), v("2.0.0-rc1"))].into_iter().collect();
    assert_eq!(got, want);
}

#[test]
fn retired_release_avoided_unless_locked() {
    let mut retired = release("1.0.0", vec![]);
    retired.retirement_status = Some(hexpm::RetirementStatus {
        reason: hexpm::RetirementReason::Security,
        message: "vulnerable".to_string(),
    });
    let packages = vec![package("a", vec![retired.clone(), release("1.1.0", vec![])])];
    let got = solved(resolve(
        packages.clone(),
        vec![("a".to_string(), range(">= 1.0.0"))],
        vec![],
    ));
    let want: HashMap<String, Version> = [("a".to_string(), v("1.1.0"))].into_iter().collect();
    assert_eq!(got, want);

    // Once locked, the retired release is honoured.
    let got = solved(resolve(
        packages,
        vec![("a".to_string(), range(">= 1.0.0"))],
        vec![("a".to_string(), v("1.0.0"))],
    ));
    let want: HashMap<String, Version> = [("a".to_string(), v("1.0.0"))].into_iter().collect();
    assert_eq!(got, want);
}

#[test]
fn incompatible_locked_version_reported_before_solving() {
    let packages = vec![package("a", vec![release("1.0.0", vec![]), release("2.0.0", vec![])])];
    match resolve(
        packages,
        vec![("a".to_string(), range("~> 2.0"))],
        vec![("a".to_string(), v("1.0.0"))],
    ) {
        ResolveOutcome::Incompatible {
            package,
            requirement,
            version,
        } => {
            assert_eq!(package, "a");
            assert_eq!(requirement, "~> 2.0");
            assert_eq!(version, "1.0.0");
        }
        other => panic!("expected an incompatible lock, got {:?}", other),
    }
}

#[test]
fn release_order_puts_pre_releases_last() {
    let releases = vec![
        release("1.0.0", vec![]),
        release("2.0.0-rc1", vec![]),
        release("1.5.0", vec![]),
        release("0.9.0-beta", vec![]),
    ];
    let ordered = canonical_release_order(releases);
    let versions: Vec<String> = ordered.iter().map(|r| r.version.to_version_string()).collect();
    assert_eq!(versions, vec!["1.5.0", "1.0.0", "2.0.0-rc1", "0.9.0-beta"]);
}

#[test]
fn pick_version_prefers_non_pre() {
    let candidates = vec![v("1.0.0"), v("2.0.0-rc1"), v("0.5.0")];
    assert_eq!(pick_version(&candidates), Some(v("1.0.0")));
    let only_pre = vec![v("2.0.0-rc1"), v("2.0.0-rc2")];
    assert_eq!(pick_version(&only_pre), Some(v("2.0.0-rc2")));
    assert_eq!(pick_version(&vec![]), None);
}

#[test]
fn release_dependencies_reports_missing_and_retired() {
    let pkg = package("a", vec![release("1.0.0", vec![("b", "~> 1.0")])]);
    match release_dependencies(&pkg, &v("1.0.0"), None) {
        DependencyDecision::Available(deps) => {
            assert_eq!(deps.len(), 1);
            assert_eq!(deps[0].0, "b");
            assert_eq!(deps[0].1.to_display_string(), "~> 1.0");
        }
        other => panic!("expected dependencies, got {:?}", other),
    }
    match release_dependencies(&pkg, &v("9.9.9"), None) {
        DependencyDecision::Unavailable(reason) => {
            assert_eq!(reason, "version 9.9.9 of package a not found");
        }
        other => panic!("expected unavailable, got {:?}", other),
    }
    let mut retired = release("1.0.0", vec![]);
    retired.retirement_status = Some(hexpm::RetirementStatus {
        reason: hexpm::RetirementReason::Deprecated,
        message: "use b instead".to_string(),
    });
    let pkg = package("a", vec![retired]);
    match release_dependencies(&pkg, &v("1.0.0"), None) {
        DependencyDecision::Unavailable(reason) => {
            assert_eq!(reason, "version 1.0.0 of package a is retired");
        }
        other => panic!("expected unavailable, got {:?}", other),
    }
    // The same retired release stays available once locked.
    match release_dependencies(&pkg, &v("1.0.0"), Some(&v("1.0.0"))) {
        DependencyDecision::Available(deps) => assert!(deps.is_empty()),
        other => panic!("expected dependencies, got {:?}", other),
    }
}
