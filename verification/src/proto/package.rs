//! The repository's record of one package, as the wire reports it.

use vstd::prelude::*;

verus! {

/// Why a release was retired, as the wire encodes it.
#[derive(Debug, Clone, Copy, PartialEq, Eq)]
pub enum RetirementReason {
    RetiredOther,
    RetiredInvalid,
    RetiredSecurity,
    RetiredDeprecated,
    RetiredRenamed,
}

/// A retirement notice, with its optional fields as the wire has them.
#[derive(Debug, Clone, PartialEq, Eq)]
pub struct RetirementStatus {
    pub reason: Option<RetirementReason>,
    pub message: Option<String>,
}

impl RetirementStatus {
    /// The reason, defaulting as the wire format does.
    pub fn reason(&self) -> (r: RetirementReason)
        ensures
            r == match self.reason {
                Option::Some(x) => x,
                Option::None => RetirementReason::RetiredOther,
            },
    {
        match self.reason {
            Option::Some(x) => x,
            Option::None => RetirementReason::RetiredOther,
        }
    }

    /// The message, defaulting to the empty string.
    pub fn message(&self) -> (r: &str)
        ensures
            r@ == match self.message {
                Option::Some(m) => m@,
                Option::None => Seq::<char>::empty(),
            },
    {
        match &self.message {
            Option::Some(m) => m.as_str(),
            Option::None => {
                proof {
                    reveal_strlit("");
                    assert(""@ =~= Seq::<char>::empty());
                }
                ""
            },
        }
    }
}

/// One dependency of a release.
#[derive(Debug, Clone, PartialEq, Eq)]
pub struct Dependency {
    pub package: String,
    pub requirement: String,
    pub optional: Option<bool>,
    pub app: Option<String>,
    pub repository: Option<String>,
}

/// One release of the package.
#[derive(Debug, Clone, PartialEq, Eq)]
pub struct Release {
    pub version: String,
    pub dependencies: Vec<Dependency>,
    pub retired: Option<RetirementStatus>,
    pub outer_checksum: Option<Vec<u8>>,
}

/// The package record.
#[derive(Debug, Clone, PartialEq, Eq)]
pub struct Package {
    pub name: String,
    pub repository: String,
    pub releases: Vec<Release>,
}

} // verus!
