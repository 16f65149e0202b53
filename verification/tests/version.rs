use tte::version;

#[test]
fn version_is_reported() {
    assert_eq!(version(), "2.2.0");
}

#[test]
fn version_is_semver_shaped() {
    let v = version();
    assert_eq!(v.split('.').count(), 3, "expected MAJOR.MINOR.PATCH, got '{v}'");
}
