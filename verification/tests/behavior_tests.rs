use symver_check::DecodedBinary;
use symver_check::DemangleChoice;
use symver_check::ExtractError;
use symver_check::FileCheckResult;
use symver_check::FileError;
use symver_check::FileInput;
use symver_check::NamespacedVersion;
use symver_check::ParseError;
use symver_check::SymbolEntry;
use symver_check::SymbolVersion;
use symver_check::Version;
use symver_check::VersionLookup;
use symver_check::VersionRecord;
use symver_check::VersionRequirements;
use symver_check::check_files;
use symver_check::demangle_symbol_name;
use symver_check::extract_symbol_versions;
use symver_check::sort_symbols;

fn versioned_entry(name: &str, version: &[u8], file: Option<&[u8]>) -> SymbolEntry {
    SymbolEntry {
        name: Some(name.to_string()),
        undefined: true,
        version: VersionLookup::Versioned(VersionRecord {
            name_bytes: version.to_vec(),
            file_bytes: file.map(|f| f.to_vec()),
        }),
    }
}

#[test]
fn version_render_strips_trailing_zeros() {
    assert_eq!(Version::parse("1.2.0").unwrap().to_text(), "1.2");
    assert_eq!(Version::parse("0.1.0.0").unwrap().to_text(), "0.1");
    assert_eq!(Version::parse("007").unwrap().to_text(), "7");
    assert_eq!(Version::parse("0").unwrap().to_text(), "");
}

#[test]
fn version_render_parse_roundtrip_is_fixed_point() {
    let first = Version::parse("1.2.0").unwrap();
    let rendered = first.to_text();
    let second = Version::parse(&rendered).unwrap();
    assert_eq!(first, second);
    assert_eq!(second.to_text(), rendered);
}

#[test]
fn version_parse_rejects_out_of_range_component() {
    assert_eq!(Version::parse("4294967295").unwrap().values, vec![u32::MAX]);
    assert_eq!(
        Version::parse("4294967296").unwrap_err(),
        ParseError::InvalidVersion
    );
}

#[test]
fn namespaced_version_render() {
    let nv = NamespacedVersion::parse("GLIBC_2.17.0").unwrap();
    assert_eq!(nv.to_text(), "GLIBC_2.17");
}

#[test]
fn namespaced_version_parse_error_variants() {
    assert_eq!(
        NamespacedVersion::parse("GLIBC").unwrap_err(),
        ParseError::MissingSeparator
    );
    assert_eq!(
        NamespacedVersion::parse("_2.17").unwrap_err(),
        ParseError::EmptyNamespace
    );
    assert_eq!(
        NamespacedVersion::parse("GLIBC_").unwrap_err(),
        ParseError::InvalidFormat
    );
    assert_eq!(
        NamespacedVersion::parse("GLIBC_x").unwrap_err(),
        ParseError::InvalidFormat
    );
    assert_eq!(
        NamespacedVersion::parse("GLIBC_2..3").unwrap_err(),
        ParseError::InvalidVersion
    );
}

#[test]
fn check_flags_only_symbols_over_their_ceiling() {
    let requirements = VersionRequirements::parse(&vec!["GLIBC_2.17".to_string()]).unwrap();
    let symbols = vec![
        SymbolVersion::parse("malloc", "GLIBC_2.14", None).unwrap(),
        SymbolVersion::parse("foo", "GLIBC_2.20", None).unwrap(),
        SymbolVersion::parse("bar", "GLIBCXX_9.0", None).unwrap(),
    ];
    let flagged = requirements.check_symbols(&symbols);
    assert_eq!(flagged.len(), 1);
    assert_eq!(flagged[0].name, "foo");
    assert_eq!(flagged[0].version, NamespacedVersion::parse("GLIBC_2.20").unwrap());
}

#[test]
fn check_does_not_flag_symbol_at_its_ceiling() {
    let requirements = VersionRequirements::parse(&vec!["GLIBC_2.17".to_string()]).unwrap();
    let symbols = vec![SymbolVersion::parse("at_limit", "GLIBC_2.17", None).unwrap()];
    assert!(requirements.check_symbols(&symbols).is_empty());
}

#[test]
fn empty_requirements_flag_nothing() {
    let requirements = VersionRequirements::parse(&vec![]).unwrap();
    let symbols = vec![
        SymbolVersion::parse("malloc", "GLIBC_2.14", None).unwrap(),
        SymbolVersion::parse("foo", "GLIBC_99.9", None).unwrap(),
    ];
    assert!(requirements.check_symbols(&symbols).is_empty());
}

#[test]
fn extractor_keeps_undefined_versioned_symbols() {
    let binary = DecodedBinary {
        has_version_table: true,
        symbols: vec![
            versioned_entry("malloc", b"GLIBC_2.14", Some(b"libc.so.6")),
            SymbolEntry {
                name: Some("local".to_string()),
                undefined: false,
                version: VersionLookup::Unversioned,
            },
            SymbolEntry {
                name: Some("unversioned".to_string()),
                undefined: true,
                version: VersionLookup::Unversioned,
            },
        ],
    };
    let symbols = extract_symbol_versions(&binary).unwrap();
    assert_eq!(symbols.len(), 1);
    assert_eq!(symbols[0].name, "malloc");
    assert_eq!(
        symbols[0].version,
        NamespacedVersion::parse("GLIBC_2.14").unwrap()
    );
    assert_eq!(symbols[0].file.as_deref(), Some("libc.so.6"));
}

#[test]
fn extractor_silently_drops_unparsable_version_strings() {
    let binary = DecodedBinary {
        has_version_table: true,
        symbols: vec![
            versioned_entry("tagged", b"NODEFAULT", None),
            versioned_entry("garbled", b"\xff\xfe", None),
            versioned_entry("kept", b"GLIBC_2.20", None),
        ],
    };
    let symbols = extract_symbol_versions(&binary).unwrap();
    assert_eq!(symbols.len(), 1);
    assert_eq!(symbols[0].name, "kept");
    let requirements = VersionRequirements::parse(&vec!["GLIBC_2.17".to_string()]).unwrap();
    let flagged = requirements.check_symbols(&symbols);
    assert_eq!(flagged.len(), 1);
    assert_eq!(flagged[0].name, "kept");
}

#[test]
fn extractor_rejects_binary_without_version_table() {
    let binary = DecodedBinary {
        has_version_table: false,
        symbols: vec![versioned_entry("malloc", b"GLIBC_2.14", None)],
    };
    assert_eq!(
        extract_symbol_versions(&binary).unwrap_err(),
        ExtractError::NoVersionTable
    );
}

#[test]
fn extractor_rejects_unreadable_symbol_name() {
    let binary = DecodedBinary {
        has_version_table: true,
        symbols: vec![SymbolEntry {
            name: None,
            undefined: true,
            version: VersionLookup::Unversioned,
        }],
    };
    assert_eq!(
        extract_symbol_versions(&binary).unwrap_err(),
        ExtractError::BadSymbolName
    );
}

#[test]
fn extractor_rejects_unreadable_version_info() {
    let binary = DecodedBinary {
        has_version_table: true,
        symbols: vec![SymbolEntry {
            name: Some("malloc".to_string()),
            undefined: true,
            version: VersionLookup::Unreadable,
        }],
    };
    assert_eq!(
        extract_symbol_versions(&binary).unwrap_err(),
        ExtractError::BadVersionInfo
    );
}

#[test]
fn check_files_classifies_each_file_on_its_own() {
    let requirements = VersionRequirements::parse(&vec!["GLIBC_2.17".to_string()]).unwrap();
    let inputs = vec![
        FileInput {
            file: "pass.so".to_string(),
            binary: Ok(DecodedBinary {
                has_version_table: true,
                symbols: vec![versioned_entry("malloc", b"GLIBC_2.14", None)],
            }),
        },
        FileInput {
            file: "fail.so".to_string(),
            binary: Ok(DecodedBinary {
                has_version_table: true,
                symbols: vec![versioned_entry("newer", b"GLIBC_2.20", None)],
            }),
        },
        FileInput {
            file: "no_table.so".to_string(),
            binary: Ok(DecodedBinary {
                has_version_table: false,
                symbols: vec![],
            }),
        },
        FileInput {
            file: "unreadable.so".to_string(),
            binary: Err(FileError::new("Error reading file".to_string())),
        },
    ];
    let result = check_files(inputs, &requirements);
    assert_eq!(result.file_results.len(), 4);
    assert!(matches!(result.file_results[0].result, FileCheckResult::Pass));
    match &result.file_results[1].result {
        FileCheckResult::Fail(symbols) => {
            assert_eq!(symbols.len(), 1);
            assert_eq!(symbols[0].name, "newer");
        }
        _ => panic!("Expected Fail result"),
    }
    match &result.file_results[2].result {
        FileCheckResult::Error(e) => assert_eq!(e.message(), "No version table found"),
        _ => panic!("Expected Error result"),
    }
    match &result.file_results[3].result {
        FileCheckResult::Error(e) => assert_eq!(e.message(), "Error reading file"),
        _ => panic!("Expected Error result"),
    }
    assert!(result.has_errors());
    assert!(result.has_failures());
}

#[test]
fn unversioned_undefined_symbols_give_a_pass() {
    let requirements = VersionRequirements::parse(&vec!["GLIBC_2.17".to_string()]).unwrap();
    let inputs = vec![FileInput {
        file: "plain.so".to_string(),
        binary: Ok(DecodedBinary {
            has_version_table: true,
            symbols: vec![
                SymbolEntry {
                    name: Some("a".to_string()),
                    undefined: true,
                    version: VersionLookup::Unversioned,
                },
                SymbolEntry {
                    name: Some("b".to_string()),
                    undefined: true,
                    version: VersionLookup::Unversioned,
                },
            ],
        }),
    }];
    let result = check_files(inputs, &requirements);
    assert!(matches!(result.file_results[0].result, FileCheckResult::Pass));
    assert!(!result.has_errors());
    assert!(!result.has_failures());
}

#[test]
fn file_error_message_joins_cause_chain() {
    let error = FileError {
        causes: vec![
            "Error getting version table".to_string(),
            "section table is malformed".to_string(),
        ],
    };
    assert_eq!(
        error.message(),
        "Error getting version table: section table is malformed"
    );
}

#[test]
fn duplicate_namespace_message_names_the_namespace() {
    let requirements = vec!["GLIBC_2.17".to_string(), "GLIBC_2.18".to_string()];
    let error = VersionRequirements::parse(&requirements).unwrap_err();
    assert_eq!(error.message(), "Duplicate namespace: GLIBC");
}

#[test]
fn sort_orders_by_name_version_then_file() {
    let symbols = vec![
        SymbolVersion::parse("b", "GLIBC_2.14", None).unwrap(),
        SymbolVersion::parse("a", "GLIBC_2.17", Some("libc.so.6".to_string())).unwrap(),
        SymbolVersion::parse("a", "GLIBC_2.17", None).unwrap(),
        SymbolVersion::parse("a", "GLIBC_2.14", None).unwrap(),
    ];
    let sorted = sort_symbols(symbols);
    assert_eq!(sorted.len(), 4);
    assert_eq!(sorted[0].name, "a");
    assert_eq!(sorted[0].version, NamespacedVersion::parse("GLIBC_2.14").unwrap());
    assert_eq!(sorted[1].name, "a");
    assert_eq!(sorted[1].version, NamespacedVersion::parse("GLIBC_2.17").unwrap());
    assert_eq!(sorted[1].file, None);
    assert_eq!(sorted[2].file.as_deref(), Some("libc.so.6"));
    assert_eq!(sorted[3].name, "b");
}

#[test]
fn demangle_choice_picks_display_name() {
    let mangled = "_ZN3std2rt10lang_start28_$u7b$$u7b$closure$u7d$$u7d$17hf851721abb1b401eE";
    let symbol = SymbolVersion::parse(mangled, "LIB_1", None).unwrap();
    assert_eq!(demangle_symbol_name(&symbol, DemangleChoice::Plain), mangled);
    assert_eq!(
        demangle_symbol_name(&symbol, DemangleChoice::Rust),
        "std::rt::lang_start::{{closure}}::hf851721abb1b401e"
    );
    let plain = SymbolVersion::parse("main", "LIB_1", None).unwrap();
    assert_eq!(demangle_symbol_name(&plain, DemangleChoice::Cpp), "main");
}
