//! Per-namespace version ceilings and the check against them.

use vstd::prelude::*;
use vstd::string::StringExecFns;

use crate::symbols::SymbolVersion;
use crate::symbols::SymbolVersionModel;
use crate::version::NamespacedVersion;
use crate::version::NamespacedVersionModel;
use crate::version::ParseError;
use crate::version::cmp_values;
use crate::version::parse_error_text;
use crate::version::spec_parse_namespaced;
use crate::version::version_lt;

verus! {

/// Why a set of ceiling tokens was rejected.
#[derive(Debug)]
pub enum BuildError {
    /// A ceiling token failed to parse as a namespaced version.
    InvalidRequirement(ParseError),
    /// Two ceiling tokens name the same namespace.
    DuplicateNamespace(String),
}

/// The abstract value of a build error.
#[verifier::ext_equal]
pub enum BuildErrorModel {
    InvalidRequirement(ParseError),
    DuplicateNamespace(Seq<char>),
}

impl View for BuildError {
    type V = BuildErrorModel;

    open spec fn view(&self) -> BuildErrorModel {
        match self {
            BuildError::InvalidRequirement(e) => BuildErrorModel::InvalidRequirement(*e),
            BuildError::DuplicateNamespace(ns) => BuildErrorModel::DuplicateNamespace(ns@),
        }
    }
}

impl BuildError {
    /// A human-readable cause for the rejection.
    pub fn message(&self) -> (r: String)
        ensures
            match self {
                BuildError::InvalidRequirement(e) => r@ == parse_error_text(*e),
                BuildError::DuplicateNamespace(ns) => r@ == "Duplicate namespace: "@ + ns@,
            },
    {
        match self {
            BuildError::InvalidRequirement(e) => e.message(),
            BuildError::DuplicateNamespace(ns) => {
                let mut out = String::from_str("Duplicate namespace: ");
                out.append(ns.as_str());
                out
            },
        }
    }
}

/// The mapping a requirement list denotes: each namespace to its ceiling.
pub open spec fn reqs_map(s: Seq<NamespacedVersion>) -> Map<Seq<char>, Seq<u32>>
    decreases s.len(),
{
    if s.len() == 0 {
        Map::empty()
    } else {
        reqs_map(s.drop_last()).insert(s.last().namespace@, s.last().version@)
    }
}

/// Builds the ceilings left to right: a token that does not parse, or one
/// that repeats a namespace, rejects the whole list at the first offence.
pub open spec fn spec_build(tokens: Seq<Seq<char>>) -> Result<
    Map<Seq<char>, Seq<u32>>,
    BuildErrorModel,
>
    decreases tokens.len(),
{
    if tokens.len() == 0 {
        Ok(Map::empty())
    } else {
        match spec_build(tokens.drop_last()) {
            Err(e) => Err(e),
            Ok(m) => match spec_parse_namespaced(tokens.last()) {
                Err(pe) => Err(BuildErrorModel::InvalidRequirement(pe)),
                Ok(nv) => if m.contains_key(nv.namespace) {
                    Err(BuildErrorModel::DuplicateNamespace(nv.namespace))
                } else {
                    Ok(m.insert(nv.namespace, nv.version))
                },
            },
        }
    }
}

/// An error in a prefix settles the whole build.
proof fn lemma_spec_build_prefix_err(tokens: Seq<Seq<char>>, j: int)
    requires
        0 <= j <= tokens.len(),
        spec_build(tokens.take(j)) is Err,
    ensures
        spec_build(tokens) == spec_build(tokens.take(j)),
    decreases tokens.len() - j,
{
    if j == tokens.len() {
        assert(tokens.take(j) =~= tokens);
    } else {
        assert(tokens.take(j + 1).drop_last() =~= tokens.take(j));
        lemma_spec_build_prefix_err(tokens, j + 1);
    }
}

/// The keys of a requirement list's mapping are exactly its namespaces.
proof fn lemma_reqs_map_keys(s: Seq<NamespacedVersion>, ns: Seq<char>)
    ensures
        reqs_map(s).contains_key(ns) <==> exists|i: int|
            0 <= i < s.len() && #[trigger] s[i].namespace@ == ns,
    decreases s.len(),
{
    if s.len() > 0 {
        lemma_reqs_map_keys(s.drop_last(), ns);
        if s.last().namespace@ == ns {
            assert(s[s.len() - 1].namespace@ == ns);
        } else {
            assert(reqs_map(s).contains_key(ns) <==> reqs_map(s.drop_last()).contains_key(ns));
            if exists|i: int| 0 <= i < s.len() && #[trigger] s[i].namespace@ == ns {
                let i = choose|i: int| 0 <= i < s.len() && #[trigger] s[i].namespace@ == ns;
                assert(s.drop_last()[i].namespace@ == ns);
            }
        }
    }
}

/// Under distinct namespaces, the mapping sends each namespace to the
/// version of its one requirement.
proof fn lemma_reqs_map_value(s: Seq<NamespacedVersion>, i: int)
    requires
        0 <= i < s.len(),
        forall|x: int, y: int|
            0 <= x < y < s.len() ==> #[trigger] s[x].namespace@ != #[trigger] s[y].namespace@,
    ensures
        reqs_map(s).contains_key(s[i].namespace@),
        reqs_map(s)[s[i].namespace@] == s[i].version@,
    decreases s.len(),
{
    if i == s.len() - 1 {
    } else {
        lemma_reqs_map_value(s.drop_last(), i);
        assert(s[i].namespace@ != s[s.len() - 1].namespace@);
    }
}

/// Finds the index of the requirement for a namespace, if any.
fn find_namespace(reqs: &Vec<NamespacedVersion>, ns: &String) -> (r: Option<usize>)
    ensures
        match r {
            Some(i) => i < reqs@.len() && reqs@[i as int].namespace@ == ns@,
            None => forall|i: int| 0 <= i < reqs@.len() ==> #[trigger] reqs@[i].namespace@ != ns@,
        },
{
    let mut i: usize = 0;
    while i < reqs.len()
        invariant
            i <= reqs@.len(),
            forall|j: int| 0 <= j < i ==> #[trigger] reqs@[j].namespace@ != ns@,
        decreases reqs@.len() - i,
    {
        if reqs[i].namespace.eq(ns) {
            return Some(i);
        }
        i = i + 1;
    }
    None
}

/// A symbol violates the ceilings when its namespace is constrained and its
/// version strictly exceeds the ceiling for that namespace.
pub open spec fn violates(m: SymbolVersionModel, reqs: Map<Seq<char>, Seq<u32>>) -> bool {
    reqs.contains_key(m.version.namespace) && version_lt(
        reqs[m.version.namespace],
        m.version.version,
    )
}

/// The abstract values of a list of symbol records, in order.
pub open spec fn symbol_models(s: Seq<SymbolVersion>) -> Seq<SymbolVersionModel> {
    s.map_values(|x: SymbolVersion| x@)
}

/// The records that violate the ceilings, in their original order.
pub open spec fn violating_models(
    symbols: Seq<SymbolVersionModel>,
    reqs: Map<Seq<char>, Seq<u32>>,
) -> Seq<SymbolVersionModel> {
    symbols.filter(|m: SymbolVersionModel| violates(m, reqs))
}

/// Every flagged record is one of the records that were checked: the
/// checker never invents a symbol.
pub proof fn lemma_violating_subset(
    symbols: Seq<SymbolVersionModel>,
    reqs: Map<Seq<char>, Seq<u32>>,
    j: int,
)
    requires
        0 <= j < violating_models(symbols, reqs).len(),
    ensures
        symbols.contains(violating_models(symbols, reqs)[j]),
        violates(violating_models(symbols, reqs)[j], reqs),
{
    let pred = |m: SymbolVersionModel| violates(m, reqs);
    symbols.lemma_filter_pred(pred, j);
    assert(symbols.filter(pred).contains(symbols.filter(pred)[j]));
    symbols.lemma_filter_contains_rev(pred, symbols.filter(pred)[j]);
}

/// An empty set of ceilings flags no symbol at all.
pub proof fn lemma_empty_requirements_flag_nothing(symbols: Seq<SymbolVersionModel>)
    ensures
        violating_models(symbols, Map::empty()) == Seq::<SymbolVersionModel>::empty(),
    decreases symbols.len(),
{
    reveal(Seq::filter);
    if symbols.len() > 0 {
        lemma_empty_requirements_flag_nothing(symbols.drop_last());
    }
}

/// A mapping from namespace to the single maximum permitted version in that
/// namespace.
#[derive(Debug)]
pub struct VersionRequirements {
    requirements: Vec<NamespacedVersion>,
}

impl View for VersionRequirements {
    type V = Map<Seq<char>, Seq<u32>>;

    closed spec fn view(&self) -> Map<Seq<char>, Seq<u32>> {
        reqs_map(self.requirements@)
    }
}

impl VersionRequirements {
    /// Each stored requirement is well formed and namespaces are distinct.
    pub closed spec fn wf(&self) -> bool {
        &&& forall|i: int| 0 <= i < self.requirements@.len() ==> (#[trigger] self.requirements@[i]).wf()
        &&& forall|x: int, y: int|
            0 <= x < y < self.requirements@.len() ==> #[trigger] self.requirements@[x].namespace@
                != #[trigger] self.requirements@[y].namespace@
    }

    /// Builds the ceilings from raw tokens; a token that does not parse or
    /// repeats a namespace rejects the whole list.
    pub fn parse(tokens: &Vec<String>) -> (r: Result<VersionRequirements, BuildError>)
        ensures
            match r {
                Ok(reqs) => spec_build(tokens@.map_values(|t: String| t@)) == Ok::<
                    Map<Seq<char>, Seq<u32>>,
                    BuildErrorModel,
                >(reqs@) && reqs.wf(),
                Err(e) => spec_build(tokens@.map_values(|t: String| t@)) == Err::<
                    Map<Seq<char>, Seq<u32>>,
                    BuildErrorModel,
                >(e@),
            },
    {
        let ghost toks = tokens@.map_values(|t: String| t@);
        let mut reqs: Vec<NamespacedVersion> = Vec::new();
        let mut i: usize = 0;
        proof {
            assert(toks.take(0) =~= Seq::<Seq<char>>::empty());
        }
        while i < tokens.len()
            invariant
                i <= tokens@.len(),
                toks == tokens@.map_values(|t: String| t@),
                toks.len() == tokens@.len(),
                spec_build(toks.take(i as int)) == Ok::<
                    Map<Seq<char>, Seq<u32>>,
                    BuildErrorModel,
                >(reqs_map(reqs@)),
                forall|j: int| 0 <= j < reqs@.len() ==> (#[trigger] reqs@[j]).wf(),
                forall|x: int, y: int|
                    0 <= x < y < reqs@.len() ==> #[trigger] reqs@[x].namespace@
                        != #[trigger] reqs@[y].namespace@,
            decreases tokens@.len() - i,
        {
            let ghost prefix = toks.take(i as int);
            proof {
                assert(toks.take(i + 1 as int).drop_last() =~= prefix);
                assert(toks.take(i + 1 as int).last() == toks[i as int]);
                assert(toks[i as int] == tokens@[i as int]@);
            }
            match NamespacedVersion::parse(tokens[i].as_str()) {
                Err(pe) => {
                    proof {
                        lemma_spec_build_prefix_err(toks, i + 1);
                    }
                    return Err(BuildError::InvalidRequirement(pe));
                },
                Ok(nv) => {
                    let dup = find_namespace(&reqs, &nv.namespace);
                    proof {
                        lemma_reqs_map_keys(reqs@, nv.namespace@);
                    }
                    match dup {
                        Some(_) => {
                            proof {
                                lemma_spec_build_prefix_err(toks, i + 1);
                            }
                            return Err(BuildError::DuplicateNamespace(nv.namespace));
                        },
                        Option::None => {
                            let ghost old_reqs = reqs@;
                            reqs.push(nv);
                            proof {
                                assert(reqs@.drop_last() =~= old_reqs);
                                assert(reqs@.last() == nv);
                            }
                        },
                    }
                },
            }
            i = i + 1;
        }
        proof {
            assert(toks.take(i as int) =~= toks);
        }
        Ok(VersionRequirements { requirements: reqs })
    }

    /// How many namespaces carry a ceiling.
    pub fn len(&self) -> (r: usize)
        requires
            self.wf(),
        ensures
            r == self@.dom().len(),
    {
        proof {
            lemma_reqs_map_len(self.requirements@);
        }
        self.requirements.len()
    }

    /// Whether a namespace carries a ceiling.
    pub fn contains(&self, namespace: &String) -> (r: bool)
        ensures
            r == self@.contains_key(namespace@),
    {
        proof {
            lemma_reqs_map_keys(self.requirements@, namespace@);
        }
        match find_namespace(&self.requirements, namespace) {
            Some(_) => true,
            Option::None => false,
        }
    }

    /// The ceiling configured for a namespace, if any.
    pub fn get(&self, namespace: &String) -> (r: Option<NamespacedVersion>)
        requires
            self.wf(),
        ensures
            match r {
                Some(nv) => self@.contains_key(namespace@) && nv.namespace@ == namespace@
                    && self@[namespace@] == nv.version@ && nv.wf(),
                None => !self@.contains_key(namespace@),
            },
    {
        proof {
            lemma_reqs_map_keys(self.requirements@, namespace@);
        }
        match find_namespace(&self.requirements, namespace) {
            Some(i) => {
                proof {
                    lemma_reqs_map_value(self.requirements@, i as int);
                }
                Some(self.requirements[i].clone())
            },
            Option::None => None,
        }
    }

    /// Returns the symbols whose version strictly exceeds the ceiling for
    /// their namespace, in input order; a symbol whose namespace has no
    /// ceiling is never flagged.
    pub fn check_symbols(&self, symbols: &Vec<SymbolVersion>) -> (r: Vec<SymbolVersion>)
        requires
            self.wf(),
        ensures
            symbol_models(r@) == violating_models(symbol_models(symbols@), self@),
    {
        reveal(Seq::filter);
        let mut out: Vec<SymbolVersion> = Vec::new();
        let mut i: usize = 0;
        proof {
            assert(symbol_models(symbols@.take(0)) =~= Seq::<SymbolVersionModel>::empty());
            assert(symbol_models(out@) =~= Seq::<SymbolVersionModel>::empty());
        }
        while i < symbols.len()
            invariant
                i <= symbols@.len(),
                self.wf(),
                symbol_models(out@) == violating_models(symbol_models(symbols@.take(i as int)), self@),
            decreases symbols@.len() - i,
        {
            let ghost pm = symbol_models(symbols@.take(i as int));
            proof {
                assert(symbol_models(symbols@.take(i + 1 as int)) =~= pm.push(
                    symbols@[i as int]@,
                ));
                pm.lemma_filter_push(
                    symbols@[i as int]@,
                    |m: SymbolVersionModel| violates(m, self@),
                );
            }
            let sym = &symbols[i];
            let hit = find_namespace(&self.requirements, &sym.version.namespace);
            proof {
                lemma_reqs_map_keys(self.requirements@, sym.version.namespace@);
            }
            let is_violation = match hit {
                Some(j) => {
                    proof {
                        lemma_reqs_map_value(self.requirements@, j as int);
                    }
                    matches!(
                        cmp_values(&self.requirements[j].version.values, &sym.version.version.values),
                        core::cmp::Ordering::Less
                    )
                },
                Option::None => false,
            };
            if is_violation {
                let ghost old_out = out@;
                out.push(sym.clone());
                proof {
                    assert(symbol_models(out@) =~= symbol_models(old_out).push(
                        symbols@[i as int]@,
                    ));
                }
            }
            i = i + 1;
        }
        proof {
            assert(symbols@.take(i as int) =~= symbols@);
        }
        out
    }
}

/// Under distinct namespaces the mapping has one key per requirement.
proof fn lemma_reqs_map_len(s: Seq<NamespacedVersion>)
    requires
        forall|x: int, y: int|
            0 <= x < y < s.len() ==> #[trigger] s[x].namespace@ != #[trigger] s[y].namespace@,
    ensures
        reqs_map(s).dom().finite(),
        reqs_map(s).dom().len() == s.len(),
    decreases s.len(),
{
    if s.len() > 0 {
        lemma_reqs_map_len(s.drop_last());
        lemma_reqs_map_keys(s.drop_last(), s.last().namespace@);
        assert(!reqs_map(s.drop_last()).contains_key(s.last().namespace@)) by {
            if exists|i: int|
                0 <= i < s.drop_last().len() && #[trigger] s.drop_last()[i].namespace@
                    == s.last().namespace@ {
                let i = choose|i: int|
                    0 <= i < s.drop_last().len() && #[trigger] s.drop_last()[i].namespace@
                        == s.last().namespace@;
                assert(s[i].namespace@ == s[s.len() - 1].namespace@);
                assert(false);
            }
        }
        assert(reqs_map(s).dom() =~= reqs_map(s.drop_last()).dom().insert(s.last().namespace@));
    }
}

} // verus!
