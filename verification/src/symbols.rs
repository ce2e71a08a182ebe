//! Undefined dynamic symbols and the namespaced versions they require.

use core::cmp::Ordering;
use vstd::multiset::Multiset;
use vstd::prelude::*;
use vstd::string::StringExecFns;

use crate::version::NamespacedVersion;
use crate::version::NamespacedVersionModel;
use crate::version::ParseError;
use crate::version::chars_of;
use crate::version::cmp_chars;
use crate::version::cmp_namespaced;
use crate::version::namespaced_cmp;
use crate::version::spec_parse_namespaced;
use crate::version::str_cmp;
use crate::version::version_cmp;
use crate::version::head0;
use crate::version::tail0;

verus! {

/// The abstract value of one symbol record.
#[verifier::ext_equal]
pub struct SymbolVersionModel {
    pub name: Seq<char>,
    pub version: NamespacedVersionModel,
    pub file: Option<Seq<char>>,
}

/// One undefined dynamic symbol with the namespaced version it requires and,
/// when the binary records it, the file that defines that version.
#[derive(Debug)]
pub struct SymbolVersion {
    pub name: String,
    pub version: NamespacedVersion,
    pub file: Option<String>,
}

impl View for SymbolVersion {
    type V = SymbolVersionModel;

    open spec fn view(&self) -> SymbolVersionModel {
        SymbolVersionModel {
            name: self.name@,
            version: self.version@,
            file: match self.file {
                Option::Some(f) => Option::Some(f@),
                Option::None => Option::None,
            },
        }
    }
}

impl SymbolVersion {
    pub open spec fn wf(&self) -> bool {
        self.version.wf()
    }

    /// Builds a record from a raw name, version token and origin file.
    pub fn parse(name: &str, version: &str, file: Option<String>) -> (r: Result<
        SymbolVersion,
        ParseError,
    >)
        ensures
            match r {
                Ok(sv) => spec_parse_namespaced(version@) == Ok::<
                    NamespacedVersionModel,
                    ParseError,
                >(sv@.version) && sv@.name == name@ && sv@.file == (match file {
                    Option::Some(f) => Option::Some(f@),
                    Option::None => Option::None::<Seq<char>>,
                }) && sv.wf(),
                Err(e) => spec_parse_namespaced(version@) == Err::<
                    NamespacedVersionModel,
                    ParseError,
                >(e),
            },
    {
        match NamespacedVersion::parse(version) {
            Err(e) => Err(e),
            Ok(nv) => Ok(SymbolVersion { name: String::from_str(name), version: nv, file }),
        }
    }

    /// Relies on cpp_demangle::Symbol::new and Symbol::demangle: whether and
    /// how a name demangles is a function of the name alone.
    #[verifier::external_body]
    pub fn try_demangle_cpp_name(&self) -> (r: Option<String>)
        ensures
            match r {
                Some(d) => cpp_demangling(self.name@) == Some(d@),
                None => cpp_demangling(self.name@) is None,
            },
    {
        cpp_demangle::Symbol::new(&self.name).ok().and_then(|symbol| symbol.demangle().ok())
    }

    /// Relies on rustc_demangle::try_demangle and its display rendering:
    /// whether and how a name demangles is a function of the name alone.
    #[verifier::external_body]
    pub fn try_demangle_rust_name(&self) -> (r: Option<String>)
        ensures
            match r {
                Some(d) => rust_demangling(self.name@) == Some(d@),
                None => rust_demangling(self.name@) is None,
            },
    {
        rustc_demangle::try_demangle(&self.name).map(|demangled| demangled.to_string()).ok()
    }
}

impl Clone for SymbolVersion {
    /// The copy denotes the same symbol record.
    fn clone(&self) -> (r: Self)
        ensures
            r@ == self@,
    {
        let file = match &self.file {
            Option::Some(f) => Option::Some(f.clone()),
            Option::None => Option::None,
        };
        let r = SymbolVersion { name: self.name.clone(), version: self.version.clone(), file };
        proof {
            assert(r@ =~= self@);
        }
        r
    }
}

/// What the C++ demangler makes of a mangled name, when it accepts it.
pub uninterp spec fn cpp_demangling(mangled: Seq<char>) -> Option<Seq<char>>;

/// What the Rust demangler makes of a mangled name, when it accepts it.
pub uninterp spec fn rust_demangling(mangled: Seq<char>) -> Option<Seq<char>>;

/// Which demangling scheme to apply to a symbol name for display.
#[derive(Clone, Copy, Debug, PartialEq, Eq, Structural)]
pub enum DemangleChoice {
    Cpp,
    Rust,
    Plain,
}

/// The display name of a symbol: the demangled form when the chosen scheme
/// accepts the name, the raw name otherwise.
pub open spec fn spec_demangled(name: Seq<char>, choice: DemangleChoice) -> Seq<char> {
    match choice {
        DemangleChoice::Cpp => match cpp_demangling(name) {
            Option::Some(d) => d,
            Option::None => name,
        },
        DemangleChoice::Rust => match rust_demangling(name) {
            Option::Some(d) => d,
            Option::None => name,
        },
        DemangleChoice::Plain => name,
    }
}

/// Picks the display name for a symbol under the chosen demangling scheme.
pub fn demangle_symbol_name(symbol: &SymbolVersion, choice: DemangleChoice) -> (r: String)
    ensures
        r@ == spec_demangled(symbol.name@, choice),
{
    match choice {
        DemangleChoice::Cpp => match symbol.try_demangle_cpp_name() {
            Option::Some(d) => d,
            Option::None => symbol.name.clone(),
        },
        DemangleChoice::Rust => match symbol.try_demangle_rust_name() {
            Option::Some(d) => d,
            Option::None => symbol.name.clone(),
        },
        DemangleChoice::Plain => symbol.name.clone(),
    }
}

/// Order on the optional origin file: absent sorts before present.
pub open spec fn file_cmp(a: Option<Seq<char>>, b: Option<Seq<char>>) -> Ordering {
    match (a, b) {
        (Option::None, Option::None) => Ordering::Equal,
        (Option::None, Option::Some(_)) => Ordering::Less,
        (Option::Some(_), Option::None) => Ordering::Greater,
        (Option::Some(x), Option::Some(y)) => str_cmp(x, y),
    }
}

/// Order on symbol records: name, then version, then origin file.
pub open spec fn symbol_cmp(a: SymbolVersionModel, b: SymbolVersionModel) -> Ordering {
    if str_cmp(a.name, b.name) != Ordering::Equal {
        str_cmp(a.name, b.name)
    } else if namespaced_cmp(a.version, b.version) != Ordering::Equal {
        namespaced_cmp(a.version, b.version)
    } else {
        file_cmp(a.file, b.file)
    }
}

/// Compares two symbol records by name, then version, then origin file.
pub fn cmp_symbols(a: &SymbolVersion, b: &SymbolVersion) -> (r: Ordering)
    ensures
        r == symbol_cmp(a@, b@),
{
    let an = chars_of(a.name.as_str());
    let bn = chars_of(b.name.as_str());
    let c = cmp_chars(&an, &bn);
    if !matches!(c, Ordering::Equal) {
        return c;
    }
    let c = cmp_namespaced(&a.version, &b.version);
    if !matches!(c, Ordering::Equal) {
        return c;
    }
    match (&a.file, &b.file) {
        (Option::None, Option::None) => Ordering::Equal,
        (Option::None, Option::Some(_)) => Ordering::Less,
        (Option::Some(_), Option::None) => Ordering::Greater,
        (Option::Some(x), Option::Some(y)) => {
            let xc = chars_of(x.as_str());
            let yc = chars_of(y.as_str());
            cmp_chars(&xc, &yc)
        },
    }
}

proof fn lemma_str_cmp_self(a: Seq<char>)
    ensures
        str_cmp(a, a) == Ordering::Equal,
    decreases a.len(),
{
    if a.len() > 0 {
        lemma_str_cmp_self(a.drop_first());
    }
}

proof fn lemma_str_cmp_eq(a: Seq<char>, b: Seq<char>)
    requires
        str_cmp(a, b) == Ordering::Equal,
    ensures
        a == b,
    decreases a.len() + b.len(),
{
    if a.len() > 0 && b.len() > 0 {
        lemma_str_cmp_eq(a.drop_first(), b.drop_first());
        vstd::utf8::char_u32_cast(a[0], a[0] as u32);
        vstd::utf8::char_u32_cast(b[0], b[0] as u32);
        assert(a[0] == b[0]);
        assert(a =~= seq![a[0]] + a.drop_first());
        assert(b =~= seq![b[0]] + b.drop_first());
    }
}

proof fn lemma_str_cmp_flip(a: Seq<char>, b: Seq<char>)
    ensures
        str_cmp(a, b) == Ordering::Less <==> str_cmp(b, a) == Ordering::Greater,
        str_cmp(a, b) == Ordering::Equal <==> str_cmp(b, a) == Ordering::Equal,
    decreases a.len() + b.len(),
{
    if a.len() > 0 && b.len() > 0 && a[0] as u32 == b[0] as u32 {
        lemma_str_cmp_flip(a.drop_first(), b.drop_first());
    }
}

proof fn lemma_str_cmp_trans(a: Seq<char>, b: Seq<char>, c: Seq<char>)
    requires
        str_cmp(a, b) != Ordering::Greater,
        str_cmp(b, c) != Ordering::Greater,
    ensures
        str_cmp(a, c) != Ordering::Greater,
        str_cmp(a, b) == Ordering::Less || str_cmp(b, c) == Ordering::Less ==> str_cmp(a, c)
            == Ordering::Less,
    decreases a.len() + b.len() + c.len(),
{
    if a.len() > 0 && b.len() > 0 && c.len() > 0 && a[0] as u32 == b[0] as u32 && b[0] as u32
        == c[0] as u32 {
        lemma_str_cmp_trans(a.drop_first(), b.drop_first(), c.drop_first());
    }
}

proof fn lemma_version_cmp_trans_le(a: Seq<u32>, b: Seq<u32>, c: Seq<u32>)
    requires
        version_cmp(a, b) != Ordering::Greater,
        version_cmp(b, c) != Ordering::Greater,
    ensures
        version_cmp(a, c) != Ordering::Greater,
        version_cmp(a, b) == Ordering::Less || version_cmp(b, c) == Ordering::Less ==> version_cmp(
            a,
            c,
        ) == Ordering::Less,
    decreases a.len() + b.len() + c.len(),
{
    if !(a.len() == 0 && b.len() == 0 && c.len() == 0) && head0(a) == head0(b) && head0(b)
        == head0(c) {
        lemma_version_cmp_trans_le(tail0(a), tail0(b), tail0(c));
    }
}

proof fn lemma_version_cmp_eq_left(a: Seq<u32>, b: Seq<u32>, c: Seq<u32>)
    requires
        version_cmp(a, b) == Ordering::Equal,
    ensures
        version_cmp(a, c) == version_cmp(b, c),
    decreases a.len() + b.len() + c.len(),
{
    if !(a.len() == 0 && b.len() == 0 && c.len() == 0) {
        if head0(a) == head0(b) {
            lemma_version_cmp_eq_left(tail0(a), tail0(b), tail0(c));
        }
    }
}

proof fn lemma_file_cmp_flip(a: Option<Seq<char>>, b: Option<Seq<char>>)
    ensures
        file_cmp(a, b) == Ordering::Less <==> file_cmp(b, a) == Ordering::Greater,
        file_cmp(a, b) == Ordering::Equal <==> file_cmp(b, a) == Ordering::Equal,
{
    match (a, b) {
        (Option::Some(x), Option::Some(y)) => lemma_str_cmp_flip(x, y),
        _ => (),
    }
}

proof fn lemma_file_cmp_trans(a: Option<Seq<char>>, b: Option<Seq<char>>, c: Option<Seq<char>>)
    requires
        file_cmp(a, b) != Ordering::Greater,
        file_cmp(b, c) != Ordering::Greater,
    ensures
        file_cmp(a, c) != Ordering::Greater,
{
    match (a, b, c) {
        (Option::Some(x), Option::Some(y), Option::Some(z)) => lemma_str_cmp_trans(x, y, z),
        _ => (),
    }
}

/// Every record compares equal to itself.
pub proof fn lemma_symbol_cmp_self(a: SymbolVersionModel)
    ensures
        symbol_cmp(a, a) == Ordering::Equal,
{
    lemma_str_cmp_self(a.name);
    lemma_str_cmp_self(a.version.namespace);
    crate::version::lemma_version_cmp_self(a.version.version);
    match a.file {
        Option::Some(x) => lemma_str_cmp_self(x),
        Option::None => (),
    }
}

/// Swapping the operands reverses the symbol order.
pub proof fn lemma_symbol_cmp_flip(a: SymbolVersionModel, b: SymbolVersionModel)
    ensures
        symbol_cmp(a, b) == Ordering::Less <==> symbol_cmp(b, a) == Ordering::Greater,
        symbol_cmp(a, b) == Ordering::Equal <==> symbol_cmp(b, a) == Ordering::Equal,
{
    lemma_str_cmp_flip(a.name, b.name);
    lemma_str_cmp_flip(a.version.namespace, b.version.namespace);
    crate::version::lemma_version_cmp_flip(a.version.version, b.version.version);
    lemma_file_cmp_flip(a.file, b.file);
}

/// The symbol order is transitive.
pub proof fn lemma_symbol_cmp_trans(a: SymbolVersionModel, b: SymbolVersionModel, c: SymbolVersionModel)
    requires
        symbol_cmp(a, b) != Ordering::Greater,
        symbol_cmp(b, c) != Ordering::Greater,
    ensures
        symbol_cmp(a, c) != Ordering::Greater,
{
    let nab = str_cmp(a.name, b.name);
    let nbc = str_cmp(b.name, c.name);
    lemma_str_cmp_trans(a.name, b.name, c.name);
    if nab == Ordering::Equal && nbc == Ordering::Equal {
        lemma_str_cmp_eq(a.name, b.name);
        lemma_str_cmp_eq(b.name, c.name);
        lemma_str_cmp_self(a.name);
        let sab = str_cmp(a.version.namespace, b.version.namespace);
        let sbc = str_cmp(b.version.namespace, c.version.namespace);
        lemma_str_cmp_trans(a.version.namespace, b.version.namespace, c.version.namespace);
        if sab == Ordering::Equal && sbc == Ordering::Equal {
            lemma_str_cmp_eq(a.version.namespace, b.version.namespace);
            lemma_str_cmp_eq(b.version.namespace, c.version.namespace);
            lemma_str_cmp_self(a.version.namespace);
            let vab = version_cmp(a.version.version, b.version.version);
            let vbc = version_cmp(b.version.version, c.version.version);
            lemma_version_cmp_trans_le(a.version.version, b.version.version, c.version.version);
            if vab == Ordering::Equal && vbc == Ordering::Equal {
                lemma_version_cmp_eq_left(
                    a.version.version,
                    b.version.version,
                    c.version.version,
                );
                lemma_file_cmp_trans(a.file, b.file, c.file);
            }
        }
    }
}

/// Each record sorts at or before every later one.
pub open spec fn symbols_sorted(s: Seq<SymbolVersion>) -> bool {
    forall|i: int, j: int|
        0 <= i < j < s.len() ==> symbol_cmp(#[trigger] s[i]@, #[trigger] s[j]@)
            != Ordering::Greater
}

/// Sorts symbol records by name, version and origin file, for stable,
/// deterministic display.
pub fn sort_symbols(symbols: Vec<SymbolVersion>) -> (r: Vec<SymbolVersion>)
    ensures
        symbols_sorted(r@),
        r@.to_multiset() == symbols@.to_multiset(),
{
    broadcast use vstd::seq_lib::group_to_multiset_ensures;
    broadcast use vstd::multiset::group_multiset_axioms;

    let mut v = symbols;
    let mut r: Vec<SymbolVersion> = Vec::new();
    proof {
        assert(r@.to_multiset().add(v@.to_multiset()) =~= symbols@.to_multiset());
    }
    while v.len() > 0
        invariant
            r@.to_multiset().add(v@.to_multiset()) == symbols@.to_multiset(),
            symbols_sorted(r@),
            forall|i: int, j: int|
                0 <= i < r@.len() && 0 <= j < v@.len() ==> symbol_cmp(
                    #[trigger] r@[i]@,
                    #[trigger] v@[j]@,
                ) != Ordering::Greater,
        decreases v@.len(),
    {
        proof {
            lemma_symbol_cmp_self(v@[0]@);
        }
        let mut mi: usize = 0;
        let mut k: usize = 1;
        while k < v.len()
            invariant
                mi < k <= v@.len(),
                k >= 1,
                forall|t: int|
                    0 <= t < k ==> symbol_cmp(v@[mi as int]@, #[trigger] v@[t]@)
                        != Ordering::Greater,
            decreases v@.len() - k,
        {
            if matches!(cmp_symbols(&v[k], &v[mi]), Ordering::Less) {
                proof {
                    assert forall|t: int|
                        0 <= t < k + 1 implies symbol_cmp(v@[k as int]@, #[trigger] v@[t]@)
                        != Ordering::Greater by {
                        if t < k {
                            lemma_symbol_cmp_trans(v@[k as int]@, v@[mi as int]@, v@[t]@);
                        } else {
                            lemma_symbol_cmp_self(v@[k as int]@);
                        }
                    }
                }
                mi = k;
            } else {
                proof {
                    lemma_symbol_cmp_flip(v@[k as int]@, v@[mi as int]@);
                }
            }
            k = k + 1;
        }
        let ghost old_v = v@;
        let ghost old_r = r@;
        let x = v.remove(mi);
        r.push(x);
        proof {
            old_v.to_multiset_ensures();
            old_r.to_multiset_ensures();
            assert(old_v.contains(old_v[mi as int]));
            assert(old_v.to_multiset().count(old_v[mi as int]) > 0);
            assert(v@.to_multiset() =~= old_v.to_multiset().remove(old_v[mi as int]));
            assert(r@.to_multiset() =~= old_r.to_multiset().insert(old_v[mi as int]));
            assert(r@.to_multiset().add(v@.to_multiset()) =~= symbols@.to_multiset());
            assert forall|i: int, j: int|
                0 <= i < r@.len() && 0 <= j < v@.len() implies symbol_cmp(
                #[trigger] r@[i]@,
                #[trigger] v@[j]@,
            ) != Ordering::Greater by {
                let jv = if j < mi { j } else { j + 1 };
                assert(v@[j] == old_v[jv]);
                if i < old_r.len() {
                    assert(r@[i] == old_r[i]);
                } else {
                    assert(r@[i] == old_v[mi as int]);
                }
            }
        }
    }
    proof {
        assert forall|x: SymbolVersion| v@.to_multiset().count(x) == 0 by {
            assert(!v@.contains(x));
        }
        assert(v@.to_multiset() =~= Multiset::<SymbolVersion>::empty());
        assert(r@.to_multiset() =~= symbols@.to_multiset());
    }
    r
}

} // verus!
