use symver_check::NamespacedVersion;
use symver_check::VersionRequirements;

#[test]
fn parse_requirements_single_version() {
    let requirements = vec!["GLIBC_2.17".to_string()];
    let result = VersionRequirements::parse(&requirements).unwrap();
    assert_eq!(result.len(), 1);
    assert!(result.contains(&"GLIBC".to_string()));
    assert_eq!(
        result.get(&"GLIBC".to_string()).unwrap(),
        NamespacedVersion::parse("GLIBC_2.17").unwrap()
    );
}

#[test]
fn parse_requirements_multiple_namespaces() {
    let requirements = vec!["GLIBC_2.17".to_string(), "GLIBCXX_3.4.21".to_string()];
    let result = VersionRequirements::parse(&requirements).unwrap();
    assert_eq!(result.len(), 2);
    assert_eq!(
        result.get(&"GLIBC".to_string()).unwrap(),
        NamespacedVersion::parse("GLIBC_2.17").unwrap()
    );
    assert_eq!(
        result.get(&"GLIBCXX".to_string()).unwrap(),
        NamespacedVersion::parse("GLIBCXX_3.4.21").unwrap()
    );
}

#[test]
fn parse_requirements_duplicate_namespace_fails() {
    let requirements = vec!["GLIBC_2.17".to_string(), "GLIBC_2.18".to_string()];
    let result = VersionRequirements::parse(&requirements);
    assert!(result.is_err());
    assert!(result.unwrap_err().message().contains("Duplicate namespace"));
}

#[test]
fn parse_requirements_invalid_version_format() {
    let requirements = vec!["invalid".to_string()];
    let result = VersionRequirements::parse(&requirements);
    assert!(result.is_err());
}

#[test]
fn parse_requirements_empty_list() {
    let requirements = vec![];
    let result = VersionRequirements::parse(&requirements).unwrap();
    assert_eq!(result.len(), 0);
}
