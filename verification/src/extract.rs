//! Extraction of required symbol versions from a decoded binary.
//!
//! The byte-level object-file decoder is an outside collaborator: it hands
//! over, for each dynamic symbol, its name, whether it is undefined, and the
//! version record its index maps to. This module holds the logic above that
//! boundary: which symbols count, which malformed states abort the whole
//! file, and which are silently skipped.

use vstd::prelude::*;
use vstd::string::StringExecFns;

use crate::symbols::SymbolVersion;
use crate::symbols::SymbolVersionModel;
use crate::version::NamespacedVersion;
use crate::version::spec_parse_namespaced;

verus! {

/// A malformed or unsupported binary: the whole file is rejected.
#[derive(Clone, Copy, Debug, PartialEq, Eq, Structural)]
pub enum ExtractError {
    /// The binary declares no version table at all.
    NoVersionTable,
    /// A dynamic symbol's name could not be read.
    BadSymbolName,
    /// A version index the table claims to have could not be read.
    BadVersionInfo,
}

/// The display text of each extraction error.
pub open spec fn extract_error_text(e: ExtractError) -> Seq<char> {
    match e {
        ExtractError::NoVersionTable => "No version table found"@,
        ExtractError::BadSymbolName => "Error reading symbol name"@,
        ExtractError::BadVersionInfo => "Error reading symbol version info"@,
    }
}

impl ExtractError {
    /// A human-readable cause for the rejection.
    pub fn message(&self) -> (r: String)
        ensures
            r@ == extract_error_text(*self),
    {
        match self {
            ExtractError::NoVersionTable => String::from_str("No version table found"),
            ExtractError::BadSymbolName => String::from_str("Error reading symbol name"),
            ExtractError::BadVersionInfo => String::from_str("Error reading symbol version info"),
        }
    }
}

/// The version record a symbol's index maps to: raw name bytes and, when
/// the format records it, the bytes of the defining file's name.
#[derive(Debug)]
pub struct VersionRecord {
    pub name_bytes: Vec<u8>,
    pub file_bytes: Option<Vec<u8>>,
}

/// What the version table holds for one symbol.
#[derive(Debug)]
pub enum VersionLookup {
    /// The table claims the index but the record could not be read.
    Unreadable,
    /// The symbol carries no version record.
    Unversioned,
    /// The symbol's required version record.
    Versioned(VersionRecord),
}

/// One dynamic symbol table entry, as the decoder hands it over: the name
/// (absent when it could not be read or decoded), whether the symbol is
/// undefined, and its version lookup.
#[derive(Debug)]
pub struct SymbolEntry {
    pub name: Option<String>,
    pub undefined: bool,
    pub version: VersionLookup,
}

/// A decoded binary: whether it declares a version table, and its dynamic
/// symbol table entries in table order.
#[derive(Debug)]
pub struct DecodedBinary {
    pub has_version_table: bool,
    pub symbols: Vec<SymbolEntry>,
}

/// The abstract value of a version lookup.
#[verifier::ext_equal]
pub enum VersionLookupModel {
    Unreadable,
    Unversioned,
    Versioned { name: Seq<u8>, file: Option<Seq<u8>> },
}

/// The abstract value of a symbol table entry.
#[verifier::ext_equal]
pub struct SymbolEntryModel {
    pub name: Option<Seq<char>>,
    pub undefined: bool,
    pub version: VersionLookupModel,
}

impl View for VersionLookup {
    type V = VersionLookupModel;

    open spec fn view(&self) -> VersionLookupModel {
        match self {
            VersionLookup::Unreadable => VersionLookupModel::Unreadable,
            VersionLookup::Unversioned => VersionLookupModel::Unversioned,
            VersionLookup::Versioned(rec) => VersionLookupModel::Versioned {
                name: rec.name_bytes@,
                file: match rec.file_bytes {
                    Option::Some(f) => Option::Some(f@),
                    Option::None => Option::None,
                },
            },
        }
    }
}

impl View for SymbolEntry {
    type V = SymbolEntryModel;

    open spec fn view(&self) -> SymbolEntryModel {
        SymbolEntryModel {
            name: match self.name {
                Option::Some(n) => Option::Some(n@),
                Option::None => Option::None,
            },
            undefined: self.undefined,
            version: self.version@,
        }
    }
}

/// The abstract values of a list of entries, in order.
pub open spec fn entry_models(s: Seq<SymbolEntry>) -> Seq<SymbolEntryModel> {
    s.map_values(|e: SymbolEntry| e@)
}

/// What the lossy UTF-8 decoding makes of a byte sequence.
pub uninterp spec fn utf8_lossy(bytes: Seq<u8>) -> Seq<char>;

/// Relies on String::from_utf8_lossy: invalid sequences become replacement
/// characters, so the decoding is a function of the bytes alone, and bytes
/// that are all ASCII decode to themselves.
#[verifier::external_body]
fn utf8_lossy_decode(bytes: &Vec<u8>) -> (r: String)
    ensures
        r@ == utf8_lossy(bytes@),
        (forall|i: int| 0 <= i < bytes@.len() ==> bytes@[i] < 128) ==> r@ == bytes@.map_values(
            |b: u8| b as char,
        ),
{
    String::from_utf8_lossy(bytes).to_string()
}

/// What one versioned entry contributes: its required version record, when
/// the decoded version text parses as a namespaced version.
pub open spec fn entry_yields(e: SymbolEntryModel, r: SymbolVersionModel) -> bool {
    &&& e.undefined
    &&& e.name == Option::Some(r.name)
    &&& match e.version {
        VersionLookupModel::Versioned { name, file } => {
            &&& spec_parse_namespaced(utf8_lossy(name)) == Ok::<_, crate::version::ParseError>(
                r.version,
            )
            &&& r.file == (match file {
                Option::Some(f) => Option::Some(utf8_lossy(f)),
                Option::None => Option::None::<Seq<char>>,
            })
        },
        _ => false,
    }
}

/// The records extracted from the entries, in table order, or the first
/// structural error. Defined symbols are not imports and are skipped; an
/// unreadable name or version record aborts the whole extraction; an entry
/// with no version record, or one whose version text does not parse as a
/// namespaced version, is silently skipped.
pub open spec fn spec_extract(entries: Seq<SymbolEntryModel>) -> Result<
    Seq<SymbolVersionModel>,
    ExtractError,
>
    decreases entries.len(),
{
    if entries.len() == 0 {
        Ok(Seq::empty())
    } else {
        match spec_extract(entries.drop_last()) {
            Err(e) => Err(e),
            Ok(rs) => {
                let e = entries.last();
                if !e.undefined {
                    Ok(rs)
                } else if e.name is None {
                    Err(ExtractError::BadSymbolName)
                } else {
                    match e.version {
                        VersionLookupModel::Unreadable => Err(ExtractError::BadVersionInfo),
                        VersionLookupModel::Unversioned => Ok(rs),
                        VersionLookupModel::Versioned { name, file } => {
                            match spec_parse_namespaced(utf8_lossy(name)) {
                                Ok(nv) => Ok(
                                    rs.push(
                                        SymbolVersionModel {
                                            name: e.name->Some_0,
                                            version: nv,
                                            file: match file {
                                                Option::Some(f) => Option::Some(utf8_lossy(f)),
                                                Option::None => Option::None::<Seq<char>>,
                                            },
                                        },
                                    ),
                                ),
                                Err(_) => Ok(rs),
                            }
                        },
                    }
                }
            },
        }
    }
}

/// An error in a prefix settles the whole extraction.
proof fn lemma_spec_extract_prefix_err(entries: Seq<SymbolEntryModel>, j: int)
    requires
        0 <= j <= entries.len(),
        spec_extract(entries.take(j)) is Err,
    ensures
        spec_extract(entries) == spec_extract(entries.take(j)),
    decreases entries.len() - j,
{
    if j == entries.len() {
        assert(entries.take(j) =~= entries);
    } else {
        assert(entries.take(j + 1).drop_last() =~= entries.take(j));
        lemma_spec_extract_prefix_err(entries, j + 1);
    }
}

/// For each undefined symbol of a binary that carries a version table,
/// reads its name and version record and keeps those whose version text
/// parses as a namespaced version.
pub fn extract_symbol_versions(binary: &DecodedBinary) -> (r: Result<
    Vec<SymbolVersion>,
    ExtractError,
>)
    ensures
        match r {
            Ok(syms) => binary.has_version_table && spec_extract(entry_models(binary.symbols@))
                == Ok::<Seq<SymbolVersionModel>, ExtractError>(
                crate::requirements::symbol_models(syms@),
            ),
            Err(e) => (!binary.has_version_table && e == ExtractError::NoVersionTable) || (
            binary.has_version_table && spec_extract(entry_models(binary.symbols@)) == Err::<
                Seq<SymbolVersionModel>,
                ExtractError,
            >(e)),
        },
{
    if !binary.has_version_table {
        return Err(ExtractError::NoVersionTable);
    }
    let ghost ents = entry_models(binary.symbols@);
    let mut out: Vec<SymbolVersion> = Vec::new();
    let mut i: usize = 0;
    proof {
        assert(entry_models(binary.symbols@.take(0)) =~= Seq::<SymbolEntryModel>::empty());
        assert(crate::requirements::symbol_models(out@) =~= Seq::<SymbolVersionModel>::empty());
    }
    while i < binary.symbols.len()
        invariant
            binary.has_version_table,
            i <= binary.symbols@.len(),
            ents == entry_models(binary.symbols@),
            ents.len() == binary.symbols@.len(),
            spec_extract(ents.take(i as int)) == Ok::<Seq<SymbolVersionModel>, ExtractError>(
                crate::requirements::symbol_models(out@),
            ),
        decreases binary.symbols@.len() - i,
    {
        proof {
            assert(ents.take(i + 1 as int).drop_last() =~= ents.take(i as int));
            assert(ents.take(i + 1 as int).last() == ents[i as int]);
            assert(ents[i as int] == binary.symbols@[i as int]@);
        }
        let entry = &binary.symbols[i];
        if entry.undefined {
            match &entry.name {
                Option::None => {
                    proof {
                        lemma_spec_extract_prefix_err(ents, i + 1);
                    }
                    return Err(ExtractError::BadSymbolName);
                },
                Option::Some(name) => {
                    match &entry.version {
                        VersionLookup::Unreadable => {
                            proof {
                                lemma_spec_extract_prefix_err(ents, i + 1);
                            }
                            return Err(ExtractError::BadVersionInfo);
                        },
                        VersionLookup::Unversioned => {},
                        VersionLookup::Versioned(rec) => {
                            let vtext = utf8_lossy_decode(&rec.name_bytes);
                            match NamespacedVersion::parse(vtext.as_str()) {
                                Err(_) => {},
                                Ok(nv) => {
                                    let file = match &rec.file_bytes {
                                        Option::Some(f) => Option::Some(utf8_lossy_decode(f)),
                                        Option::None => Option::None,
                                    };
                                    let ghost old_out = out@;
                                    out.push(
                                        SymbolVersion {
                                            name: name.clone(),
                                            version: nv,
                                            file,
                                        },
                                    );
                                    proof {
                                        assert(crate::requirements::symbol_models(out@)
                                            =~= crate::requirements::symbol_models(
                                            old_out,
                                        ).push(out@.last()@));
                                        assert(spec_extract(ents.take(i + 1 as int))->Ok_0
                                            =~= crate::requirements::symbol_models(out@));
                                    }
                                },
                            }
                        },
                    }
                },
            }
        }
        i = i + 1;
    }
    proof {
        assert(ents.take(i as int) =~= ents);
    }
    Ok(out)
}

/// Every extracted record comes from an undefined entry whose decoded
/// version text parsed as a namespaced version: a symbol whose version text
/// does not parse is silently dropped and never appears.
pub proof fn lemma_extracted_versions_parsed(entries: Seq<SymbolEntryModel>, j: int)
    requires
        spec_extract(entries) is Ok,
        0 <= j < spec_extract(entries)->Ok_0.len(),
    ensures
        exists|i: int|
            0 <= i < entries.len() && entry_yields(#[trigger] entries[i], spec_extract(
                entries,
            )->Ok_0[j]),
    decreases entries.len(),
{
    let rs = spec_extract(entries)->Ok_0;
    let prev = spec_extract(entries.drop_last())->Ok_0;
    if j < prev.len() {
        lemma_extracted_versions_parsed(entries.drop_last(), j);
        let i = choose|i: int|
            0 <= i < entries.drop_last().len() && entry_yields(
                #[trigger] entries.drop_last()[i],
                prev[j],
            );
        assert(entries[i] == entries.drop_last()[i]);
        assert(entry_yields(entries[i], rs[j]));
    } else {
        assert(entry_yields(entries[entries.len() - 1], rs[j]));
    }
}

/// A record flagged by the checker over any ceilings comes from an entry
/// whose version text parsed: a symbol whose version text does not parse
/// never appears in check results.
pub proof fn lemma_flagged_symbols_parsed(
    entries: Seq<SymbolEntryModel>,
    reqs: Map<Seq<char>, Seq<u32>>,
    j: int,
)
    requires
        spec_extract(entries) is Ok,
        0 <= j < crate::requirements::violating_models(spec_extract(entries)->Ok_0, reqs).len(),
    ensures
        exists|i: int|
            0 <= i < entries.len() && entry_yields(
                #[trigger] entries[i],
                crate::requirements::violating_models(spec_extract(entries)->Ok_0, reqs)[j],
            ),
{
    let extracted = spec_extract(entries)->Ok_0;
    let flagged = crate::requirements::violating_models(extracted, reqs)[j];
    crate::requirements::lemma_violating_subset(extracted, reqs, j);
    let k = choose|k: int| 0 <= k < extracted.len() && extracted[k] == flagged;
    lemma_extracted_versions_parsed(entries, k);
}

/// A binary whose undefined symbols all carry readable names and no version
/// record at all extracts no symbol: such a file passes every check rather
/// than failing it.
pub proof fn lemma_unversioned_symbols_extract_empty(entries: Seq<SymbolEntryModel>)
    requires
        forall|i: int|
            0 <= i < entries.len() ==> ((#[trigger] entries[i]).undefined ==> entries[i].name
                is Some && entries[i].version is Unversioned),
    ensures
        spec_extract(entries) == Ok::<Seq<SymbolVersionModel>, ExtractError>(Seq::empty()),
    decreases entries.len(),
{
    if entries.len() > 0 {
        lemma_unversioned_symbols_extract_empty(entries.drop_last());
    }
}

} // verus!
