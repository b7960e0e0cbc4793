//! Identifier validation, status translation, and the wire conversions.

use hexpm::api::{
    create_api_key_status, credentialed_action_status, keyed_endpoint_status,
    publish_package_status, repository_read_status,
};
use hexpm::proto;
use hexpm::proto::package::RetirementReason as WireReason;
use hexpm::version::Version;
use hexpm::{
    package_from_proto, proto_to_dep, proto_to_release, proto_to_retirement_reason,
    proto_to_retirement_status, validate_package_and_version, versions_from_proto, ApiError,
    OwnerLevel, RetirementReason,
};

#[test]
fn package_and_version_validation() {
    assert!(validate_package_and_version("gleam_stdlib", "1.0.0").is_ok());
    assert!(validate_package_and_version("a", "0.1.0-rc.1").is_ok());
    match validate_package_and_version("Bad", "1.0.0") {
        Err(ApiError::InvalidPackageNameFormat(p)) => assert_eq!(p, "Bad"),
        other => panic!("expected an invalid name, got {:?}", other),
    }
    match validate_package_and_version("ok", "1.0 0") {
        Err(ApiError::InvalidVersionFormat(v)) => assert_eq!(v, "1.0 0"),
        other => panic!("expected an invalid version, got {:?}", other),
    }
    assert!(validate_package_and_version("", "1.0.0").is_err());
    assert!(validate_package_and_version("ok", "").is_err());
    assert!(validate_package_and_version("1bad", "1.0.0").is_err());
}

#[test]
fn create_key_statuses() {
    assert!(create_api_key_status(201, &vec![]).is_ok());
    assert!(matches!(create_api_key_status(429, &vec![]), Err(ApiError::RateLimited)));
    assert!(matches!(
        create_api_key_status(401, &vec![]),
        Err(ApiError::InvalidCredentials)
    ));
    match create_api_key_status(500, &b"oops".to_vec()) {
        Err(ApiError::UnexpectedResponse(status, body)) => {
            assert_eq!(status, 500);
            assert_eq!(body, "oops");
        }
        other => panic!("expected an unexpected response, got {:?}", other),
    }
}

#[test]
fn credentialed_action_statuses() {
    assert!(credentialed_action_status(200, &vec![]).is_ok());
    assert!(credentialed_action_status(204, &vec![]).is_ok());
    assert!(matches!(
        credentialed_action_status(401, &vec![]),
        Err(ApiError::InvalidCredentials)
    ));
}

#[test]
fn repository_read_statuses() {
    assert!(repository_read_status(200, &vec![]).is_ok());
    assert!(matches!(repository_read_status(403, &vec![]), Err(ApiError::NotFound)));
    assert!(matches!(repository_read_status(404, &vec![]), Err(ApiError::NotFound)));
    assert!(matches!(
        repository_read_status(500, &vec![]),
        Err(ApiError::UnexpectedResponse(500, _))
    ));
}

#[test]
fn keyed_endpoint_statuses() {
    assert!(keyed_endpoint_status(204, 204, 204, &vec![]).is_ok());
    assert!(keyed_endpoint_status(201, 201, 204, &vec![]).is_ok());
    assert!(matches!(
        keyed_endpoint_status(404, 204, 204, &vec![]),
        Err(ApiError::NotFound)
    ));
    assert!(matches!(
        keyed_endpoint_status(401, 204, 204, &vec![]),
        Err(ApiError::InvalidApiKey)
    ));
    assert!(matches!(
        keyed_endpoint_status(403, 204, 204, &vec![]),
        Err(ApiError::Forbidden)
    ));
    assert!(matches!(
        keyed_endpoint_status(429, 204, 204, &vec![]),
        Err(ApiError::RateLimited)
    ));
}

#[test]
fn publish_statuses_read_the_refusal_body() {
    assert!(publish_package_status(200, &vec![]).is_ok());
    assert!(publish_package_status(201, &vec![]).is_ok());
    let replace = b"you must pass --replace to do that".to_vec();
    assert!(matches!(
        publish_package_status(422, &replace),
        Err(ApiError::NotReplacing)
    ));
    let late = b"can only modify a release up to one hour after publication".to_vec();
    assert!(matches!(
        publish_package_status(422, &late),
        Err(ApiError::LateModification)
    ));
}

#[test]
fn retirement_reasons_map_over() {
    assert_eq!(proto_to_retirement_reason(WireReason::RetiredOther), RetirementReason::Other);
    assert_eq!(proto_to_retirement_reason(WireReason::RetiredInvalid), RetirementReason::Invalid);
    assert_eq!(
        proto_to_retirement_reason(WireReason::RetiredSecurity),
        RetirementReason::Security
    );
    assert_eq!(
        proto_to_retirement_reason(WireReason::RetiredDeprecated),
        RetirementReason::Deprecated
    );
    assert_eq!(proto_to_retirement_reason(WireReason::RetiredRenamed), RetirementReason::Renamed);
}

#[test]
fn retirement_reason_names() {
    assert_eq!(RetirementReason::Other.to_str(), "other");
    assert_eq!(RetirementReason::Invalid.to_str(), "invalid");
    assert_eq!(RetirementReason::Security.to_str(), "security");
    assert_eq!(RetirementReason::Deprecated.to_str(), "deprecated");
    assert_eq!(RetirementReason::Renamed.to_str(), "renamed");
}

#[test]
fn owner_level_names() {
    assert_eq!(OwnerLevel::Maintainer.to_str(), "maintainer");
    assert_eq!(OwnerLevel::Full.to_str(), "full");
}

#[test]
fn retirement_status_defaults() {
    let wire = proto::package::RetirementStatus { reason: None, message: None };
    let got = proto_to_retirement_status(Some(wire)).unwrap();
    assert_eq!(got.reason, RetirementReason::Other);
    assert_eq!(got.message, "");
    assert_eq!(proto_to_retirement_status(None), None);
}

#[test]
fn wire_dependency_converts() {
    let wire = proto::package::Dependency {
        package: "b".to_string(),
        requirement: "~> 1.0".to_string(),
        optional: Some(false),
        app: Some("b_app".to_string()),
        repository: None,
    };
    let (name, dep) = proto_to_dep(wire).unwrap();
    assert_eq!(name, "b");
    assert_eq!(dep.requirement.to_display_string(), "~> 1.0");
    // The wire marks optionality by carrying the field at all.
    assert!(dep.optional);
    assert_eq!(dep.app.as_deref(), Some("b_app"));
    assert_eq!(dep.repository, None);
}

#[test]
fn wire_dependency_with_bad_requirement_is_rejected() {
    let wire = proto::package::Dependency {
        package: "b".to_string(),
        requirement: "~> nope".to_string(),
        optional: None,
        app: None,
        repository: None,
    };
    match proto_to_dep(wire) {
        Err(ApiError::InvalidVersionFormat(t)) => assert_eq!(t, "~> nope"),
        other => panic!("expected an invalid requirement, got {:?}", other),
    }
}

#[test]
fn wire_release_converts() {
    let wire = proto::package::Release {
        version: "1.2.3".to_string(),
        dependencies: vec![proto::package::Dependency {
            package: "b".to_string(),
            requirement: ">= 1.0.0".to_string(),
            optional: None,
            app: None,
            repository: None,
        }],
        retired: None,
        outer_checksum: Some(vec![1, 2, 3]),
    };
    let release = proto_to_release(wire).unwrap();
    assert_eq!(release.version, Version::parse("1.2.3").unwrap());
    assert_eq!(release.requirements.len(), 1);
    assert_eq!(release.outer_checksum, vec![1, 2, 3]);
    assert!(!release.is_retired());
}

#[test]
fn wire_release_with_bad_version_is_an_error_not_a_panic() {
    let wire = proto::package::Release {
        version: "not a version".to_string(),
        dependencies: vec![],
        retired: None,
        outer_checksum: None,
    };
    assert!(matches!(proto_to_release(wire), Err(ApiError::InvalidVersionFormat(_))));
}

#[test]
fn wire_package_converts() {
    let wire = proto::package::Package {
        name: "a".to_string(),
        repository: "hexpm".to_string(),
        releases: vec![proto::package::Release {
            version: "0.1.0".to_string(),
            dependencies: vec![],
            retired: Some(proto::package::RetirementStatus {
                reason: Some(proto::package::RetirementReason::RetiredSecurity),
                message: Some("cve".to_string()),
            }),
            outer_checksum: None,
        }],
    };
    let package = package_from_proto(wire).unwrap();
    assert_eq!(package.name, "a");
    assert_eq!(package.releases.len(), 1);
    let status = package.releases[0].retirement_status.as_ref().unwrap();
    assert_eq!(status.reason, RetirementReason::Security);
    assert_eq!(status.message, "cve");
}

#[test]
fn wire_version_listing_converts() {
    let listing = proto::versions::Versions {
        packages: vec![proto::versions::Package {
            name: "a".to_string(),
            versions: vec!["1.0.0".to_string(), "1.1.0-rc1".to_string()],
        }],
    };
    let got = versions_from_proto(listing).unwrap();
    assert_eq!(got.len(), 1);
    assert_eq!(got[0].0, "a");
    assert_eq!(
        got[0].1,
        vec![
            Version::parse("1.0.0").unwrap(),
            Version::parse("1.1.0-rc1").unwrap()
        ]
    );

    let bad = proto::versions::Versions {
        packages: vec![proto::versions::Package {
            name: "a".to_string(),
            versions: vec!["nope".to_string()],
        }],
    };
    match versions_from_proto(bad) {
        Err(ApiError::InvalidVersionFormat(t)) => assert_eq!(t, "nope"),
        other => panic!("expected an invalid version, got {:?}", other),
    }
}

#[test]
fn api_error_not_found_helper() {
    assert!(ApiError::NotFound.is_not_found());
    assert!(!ApiError::RateLimited.is_not_found());
}
