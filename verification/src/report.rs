//! Per-file outcomes and the overall disposition of a run.

use vstd::prelude::*;
use vstd::string::StringExecFns;

use crate::extract::DecodedBinary;
use crate::extract::ExtractError;
use crate::extract::entry_models;
use crate::extract::extract_error_text;
use crate::extract::extract_symbol_versions;
use crate::extract::spec_extract;
use crate::requirements::VersionRequirements;
use crate::requirements::symbol_models;
use crate::requirements::violating_models;
use crate::symbols::SymbolVersion;

verus! {

/// Everything went through and no symbol violates its ceiling.
pub const EXIT_PASSED: i32 = 0;

/// At least one file could not be analyzed.
pub const EXIT_ERROR_CHECKING_FILES: i32 = 1;

/// The configuration itself was rejected.
pub const EXIT_BAD_ARGS: i32 = 2;

/// At least one file holds a symbol over its ceiling.
pub const EXIT_FILES_FAILED_CHECK: i32 = 3;

/// A structural failure for one file: an ordered cause chain, most
/// specific cause last, suitable for `": "`-joined display.
#[derive(Debug)]
pub struct FileError {
    pub causes: Vec<String>,
}

impl View for FileError {
    type V = Seq<Seq<char>>;

    open spec fn view(&self) -> Seq<Seq<char>> {
        self.causes@.map_values(|c: String| c@)
    }
}

/// The cause chain joined with `": "`.
pub open spec fn join_causes(cs: Seq<Seq<char>>) -> Seq<char>
    decreases cs.len(),
{
    if cs.len() == 0 {
        Seq::empty()
    } else if cs.len() == 1 {
        cs[0]
    } else {
        join_causes(cs.drop_last()) + ": "@ + cs.last()
    }
}

impl FileError {
    /// A chain of one cause.
    pub fn new(cause: String) -> (r: FileError)
        ensures
            r@ == seq![cause@],
    {
        let mut causes: Vec<String> = Vec::new();
        causes.push(cause);
        let r = FileError { causes };
        proof {
            assert(r@ =~= seq![cause@]);
        }
        r
    }

    /// The outcome an extraction error gives the file.
    pub fn from_extract(e: ExtractError) -> (r: FileError)
        ensures
            r@ == seq![extract_error_text(e)],
    {
        FileError::new(e.message())
    }

    /// The cause chain as one line, causes joined with `": "`.
    pub fn message(&self) -> (r: String)
        ensures
            r@ == join_causes(self@),
    {
        let mut out = String::new();
        let mut i: usize = 0;
        proof {
            assert(self@.take(0) =~= Seq::<Seq<char>>::empty());
        }
        while i < self.causes.len()
            invariant
                i <= self.causes@.len(),
                self@.len() == self.causes@.len(),
                out@ == join_causes(self@.take(i as int)),
            decreases self.causes@.len() - i,
        {
            if i > 0 {
                out.append(": ");
            }
            out.append(self.causes[i].as_str());
            proof {
                let t = self@.take(i + 1 as int);
                assert(t.drop_last() =~= self@.take(i as int));
                assert(t.last() == self@[i as int]);
                if i == 0 {
                    assert(out@ =~= join_causes(t));
                } else {
                    assert(out@ =~= join_causes(t.drop_last()) + ": "@ + t.last());
                }
            }
            i = i + 1;
        }
        proof {
            assert(self@.take(i as int) =~= self@);
        }
        out
    }
}

impl Clone for FileError {
    /// The copy holds the same cause chain.
    fn clone(&self) -> (r: Self)
        ensures
            r@ == self@,
    {
        let mut causes: Vec<String> = Vec::new();
        let mut i: usize = 0;
        while i < self.causes.len()
            invariant
                i <= self.causes@.len(),
                causes@.len() == i,
                forall|j: int| 0 <= j < i ==> #[trigger] causes@[j]@ == self.causes@[j]@,
            decreases self.causes@.len() - i,
        {
            causes.push(self.causes[i].clone());
            i = i + 1;
        }
        let r = FileError { causes };
        proof {
            assert(r@ =~= self@);
        }
        r
    }
}

/// The three-way outcome for one analyzed file.
#[derive(Debug)]
pub enum FileCheckResult {
    /// No symbol violates its ceiling.
    Pass,
    /// The symbols over their ceiling, in extraction order.
    Fail(Vec<SymbolVersion>),
    /// The file could not be analyzed.
    Error(FileError),
}

/// The outcome for one file, by name.
#[derive(Debug)]
pub struct FileResult {
    pub file: String,
    pub result: FileCheckResult,
}

impl FileResult {
    /// Classifies a per-file check outcome: no violations is a pass, any
    /// violation a failure, and a structural error an error.
    pub fn new(file: String, check_result: Result<Vec<SymbolVersion>, FileError>) -> (r: Self)
        ensures
            r.file@ == file@,
            match check_result {
                Ok(syms) => (syms@.len() == 0 ==> r.result is Pass) && (syms@.len() > 0 ==> (
                r.result matches FileCheckResult::Fail(v) && v@ == syms@)),
                Err(e) => r.result matches FileCheckResult::Error(fe) && fe@ == e@,
            },
    {
        let result = match check_result {
            Ok(symbols) => if symbols.len() == 0 {
                FileCheckResult::Pass
            } else {
                FileCheckResult::Fail(symbols)
            },
            Err(e) => FileCheckResult::Error(e),
        };
        FileResult { file, result }
    }
}

/// The outcomes of all analyzed files.
#[derive(Debug)]
pub struct CheckResult {
    pub file_results: Vec<FileResult>,
}

pub open spec fn has_errors_spec(s: Seq<FileResult>) -> bool {
    exists|i: int| 0 <= i < s.len() && (#[trigger] s[i].result) is Error
}

pub open spec fn has_failures_spec(s: Seq<FileResult>) -> bool {
    exists|i: int| 0 <= i < s.len() && (#[trigger] s[i].result) is Fail
}

impl CheckResult {
    /// Whether some file could not be analyzed at all.
    pub fn has_errors(&self) -> (r: bool)
        ensures
            r == has_errors_spec(self.file_results@),
    {
        let mut i: usize = 0;
        while i < self.file_results.len()
            invariant
                i <= self.file_results@.len(),
                forall|j: int| 0 <= j < i ==> !((#[trigger] self.file_results@[j].result) is Error),
            decreases self.file_results@.len() - i,
        {
            if matches!(&self.file_results[i].result, FileCheckResult::Error(_)) {
                return true;
            }
            i = i + 1;
        }
        false
    }

    /// Whether some file holds a symbol over its ceiling.
    pub fn has_failures(&self) -> (r: bool)
        ensures
            r == has_failures_spec(self.file_results@),
    {
        let mut i: usize = 0;
        while i < self.file_results.len()
            invariant
                i <= self.file_results@.len(),
                forall|j: int| 0 <= j < i ==> !((#[trigger] self.file_results@[j].result) is Fail),
            decreases self.file_results@.len() - i,
        {
            if matches!(&self.file_results[i].result, FileCheckResult::Fail(_)) {
                return true;
            }
            i = i + 1;
        }
        false
    }
}

/// The process disposition: an error anywhere outranks any violation,
/// which outranks a universal pass.
pub fn get_exit_code(check_result: CheckResult) -> (r: i32)
    ensures
        r == if has_errors_spec(check_result.file_results@) {
            EXIT_ERROR_CHECKING_FILES
        } else if has_failures_spec(check_result.file_results@) {
            EXIT_FILES_FAILED_CHECK
        } else {
            EXIT_PASSED
        },
{
    match (check_result.has_errors(), check_result.has_failures()) {
        (true, _) => EXIT_ERROR_CHECKING_FILES,
        (false, true) => EXIT_FILES_FAILED_CHECK,
        (false, false) => EXIT_PASSED,
    }
}

/// One file handed over for checking: its name and its decoded form, or
/// the failure that reading or decoding it produced.
#[derive(Debug)]
pub struct FileInput {
    pub file: String,
    pub binary: Result<DecodedBinary, FileError>,
}

/// What the outcome for one input must be.
pub open spec fn file_result_matches(
    input: FileInput,
    reqs: Map<Seq<char>, Seq<u32>>,
    fr: FileResult,
) -> bool {
    &&& fr.file@ == input.file@
    &&& match input.binary {
        Err(e) => fr.result matches FileCheckResult::Error(fe) && fe@ == e@,
        Ok(bin) => {
            if !bin.has_version_table {
                fr.result matches FileCheckResult::Error(fe) && fe@ == seq![
                    extract_error_text(ExtractError::NoVersionTable),
                ]
            } else {
                match spec_extract(entry_models(bin.symbols@)) {
                    Err(e) => fr.result matches FileCheckResult::Error(fe) && fe@ == seq![
                        extract_error_text(e),
                    ],
                    Ok(ms) => {
                        let viols = violating_models(ms, reqs);
                        &&& (viols.len() == 0 ==> fr.result is Pass)
                        &&& (viols.len() > 0 ==> (fr.result matches FileCheckResult::Fail(v)
                            && symbol_models(v@) == viols))
                    },
                }
            }
        },
    }
}

/// Checks each input against the ceilings: extraction gives the required
/// versions, the checker keeps the violations, and each file's outcome is
/// classified on its own; one malformed file does not touch the others.
pub fn check_files(inputs: Vec<FileInput>, requirements: &VersionRequirements) -> (r: CheckResult)
    requires
        requirements.wf(),
    ensures
        r.file_results@.len() == inputs@.len(),
        forall|i: int|
            0 <= i < inputs@.len() ==> file_result_matches(
                inputs@[i],
                requirements@,
                #[trigger] r.file_results@[i],
            ),
{
    let mut file_results: Vec<FileResult> = Vec::new();
    let mut i: usize = 0;
    while i < inputs.len()
        invariant
            i <= inputs@.len(),
            requirements.wf(),
            file_results@.len() == i,
            forall|j: int|
                0 <= j < i ==> file_result_matches(
                    inputs@[j],
                    requirements@,
                    #[trigger] file_results@[j],
                ),
        decreases inputs@.len() - i,
    {
        let input = &inputs[i];
        let fr = match &input.binary {
            Err(e) => FileResult {
                file: input.file.clone(),
                result: FileCheckResult::Error(e.clone()),
            },
            Ok(bin) => {
                match extract_symbol_versions(bin) {
                    Err(ee) => FileResult {
                        file: input.file.clone(),
                        result: FileCheckResult::Error(FileError::from_extract(ee)),
                    },
                    Ok(symbols) => {
                        let violations = requirements.check_symbols(&symbols);
                        proof {
                            assert(symbol_models(violations@).len() == violations@.len());
                        }
                        FileResult::new(input.file.clone(), Ok(violations))
                    },
                }
            },
        };
        file_results.push(fr);
        i = i + 1;
    }
    CheckResult { file_results }
}

} // verus!
