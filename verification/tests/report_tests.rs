use symver_check::CheckResult;
use symver_check::FileCheckResult;
use symver_check::FileError;
use symver_check::FileResult;
use symver_check::SymbolVersion;
use symver_check::get_exit_code;
use symver_check::EXIT_ERROR_CHECKING_FILES;
use symver_check::EXIT_FILES_FAILED_CHECK;
use symver_check::EXIT_PASSED;

#[test]
fn file_result_new_with_empty_symbols_is_pass() {
    let result = FileResult::new("test.so".to_string(), Ok(vec![]));
    assert!(matches!(result.result, FileCheckResult::Pass));
}

#[test]
fn file_result_new_with_symbols_is_fail() {
    let symbols = vec![SymbolVersion::parse("malloc", "GLIBC_2.14", None).unwrap()];
    let result = FileResult::new("test.so".to_string(), Ok(symbols.clone()));
    match result.result {
        FileCheckResult::Fail(failed_symbols) => {
            assert_eq!(failed_symbols.len(), 1);
            assert_eq!(failed_symbols[0].name, "malloc");
        }
        _ => panic!("Expected Fail result"),
    }
}

#[test]
fn file_result_new_with_error_is_error() {
    let error = FileError::new("Test error".to_string());
    let result = FileResult::new("test.so".to_string(), Err(error));
    assert!(matches!(result.result, FileCheckResult::Error(_)));
}

#[test]
fn check_result_has_errors_true_when_error_present() {
    let file_results = vec![
        FileResult {
            file: "good.so".to_string(),
            result: FileCheckResult::Pass,
        },
        FileResult {
            file: "bad.so".to_string(),
            result: FileCheckResult::Error(FileError::new("Test error".to_string())),
        },
    ];
    let check_result = CheckResult { file_results };
    assert!(check_result.has_errors());
}

#[test]
fn check_result_has_errors_false_when_no_errors() {
    let file_results = vec![
        FileResult {
            file: "good.so".to_string(),
            result: FileCheckResult::Pass,
        },
        FileResult {
            file: "fail.so".to_string(),
            result: FileCheckResult::Fail(vec![
                SymbolVersion::parse("malloc", "GLIBC_2.14", None).unwrap(),
            ]),
        },
    ];
    let check_result = CheckResult { file_results };
    assert!(!check_result.has_errors());
}

#[test]
fn check_result_has_failures_true_when_failure_present() {
    let file_results = vec![
        FileResult {
            file: "good.so".to_string(),
            result: FileCheckResult::Pass,
        },
        FileResult {
            file: "fail.so".to_string(),
            result: FileCheckResult::Fail(vec![
                SymbolVersion::parse("malloc", "GLIBC_2.14", None).unwrap(),
            ]),
        },
    ];
    let check_result = CheckResult { file_results };
    assert!(check_result.has_failures());
}

#[test]
fn check_result_has_failures_false_when_no_failures() {
    let file_results = vec![
        FileResult {
            file: "good.so".to_string(),
            result: FileCheckResult::Pass,
        },
        FileResult {
            file: "error.so".to_string(),
            result: FileCheckResult::Error(FileError::new("Test error".to_string())),
        },
    ];
    let check_result = CheckResult { file_results };
    assert!(!check_result.has_failures());
}

#[test]
fn get_exit_code_all_pass_returns_success() {
    let file_results = vec![
        FileResult {
            file: "test1.so".to_string(),
            result: FileCheckResult::Pass,
        },
        FileResult {
            file: "test2.so".to_string(),
            result: FileCheckResult::Pass,
        },
    ];
    let check_result = CheckResult { file_results };
    assert_eq!(get_exit_code(check_result), EXIT_PASSED);
}

#[test]
fn get_exit_code_with_failures_returns_failure_code() {
    let file_results = vec![
        FileResult {
            file: "good.so".to_string(),
            result: FileCheckResult::Pass,
        },
        FileResult {
            file: "bad.so".to_string(),
            result: FileCheckResult::Fail(vec![
                SymbolVersion::parse("malloc", "GLIBC_2.14", None).unwrap(),
            ]),
        },
    ];
    let check_result = CheckResult { file_results };
    assert_eq!(get_exit_code(check_result), EXIT_FILES_FAILED_CHECK);
}

#[test]
fn get_exit_code_with_errors_returns_error_code() {
    let file_results = vec![
        FileResult {
            file: "good.so".to_string(),
            result: FileCheckResult::Pass,
        },
        FileResult {
            file: "error.so".to_string(),
            result: FileCheckResult::Error(FileError::new("Test error".to_string())),
        },
    ];
    let check_result = CheckResult { file_results };
    assert_eq!(get_exit_code(check_result), EXIT_ERROR_CHECKING_FILES);
}

#[test]
fn get_exit_code_errors_take_precedence_over_failures() {
    let file_results = vec![
        FileResult {
            file: "fail.so".to_string(),
            result: FileCheckResult::Fail(vec![
                SymbolVersion::parse("malloc", "GLIBC_2.14", None).unwrap(),
            ]),
        },
        FileResult {
            file: "error.so".to_string(),
            result: FileCheckResult::Error(FileError::new("Test error".to_string())),
        },
    ];
    let check_result = CheckResult { file_results };
    assert_eq!(get_exit_code(check_result), EXIT_ERROR_CHECKING_FILES);
}
