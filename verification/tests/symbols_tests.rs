use symver_check::SymbolVersion;

#[test]
fn demangles_cpp_name() {
    let symbol = SymbolVersion::parse(
        "_ZNKSt7__cxx1112basic_stringIcSt11char_traitsIcESaIcEE12find_last_ofEPKcmm",
        "LIB_1",
        None,
    )
    .unwrap();
    assert_eq!(
        symbol.try_demangle_cpp_name(),
        Some("std::__cxx11::basic_string<char, std::char_traits<char>, std::allocator<char> >::find_last_of(char const*, unsigned long, unsigned long) const".to_string())
    );
}

#[test]
fn doesnt_demangle_unmangled_cpp_name() {
    let symbol = SymbolVersion::parse("main", "LIB_1", None).unwrap();
    assert_eq!(symbol.try_demangle_cpp_name(), None);
}

#[test]
fn demangles_rust_name() {
    let symbol = SymbolVersion::parse(
        "_ZN3std2rt10lang_start28_$u7b$$u7b$closure$u7d$$u7d$17hf851721abb1b401eE",
        "LIB_1",
        None,
    )
    .unwrap();
    assert_eq!(
        symbol.try_demangle_rust_name(),
        Some("std::rt::lang_start::{{closure}}::hf851721abb1b401e".to_string())
    );
}

#[test]
fn doesnt_demangle_unmangled_rust_name() {
    let symbol = SymbolVersion::parse("main", "LIB_1", None).unwrap();
    assert_eq!(symbol.try_demangle_rust_name(), None);
}
