use bazel_language_server::handlers::symbols::{
    contains_case_insensitive, symbol_kind, workspace_matches, SymbolClass,
};

#[test]
fn workspace_queries_ignore_case() {
    assert!(contains_case_insensitive("//lib:HTTPServer", "http"));
    assert!(contains_case_insensitive("//münchen:Straße", "straße"));
    assert!(!contains_case_insensitive("//lib:server", "client"));
}

#[test]
fn an_empty_query_matches_everything() {
    assert!(contains_case_insensitive("", ""));
    assert!(contains_case_insensitive("//lib:x", ""));
    assert!(!contains_case_insensitive("", "x"));
    assert!(contains_case_insensitive("//MÜNCHEN:x", "münchen"));
}

#[test]
fn rules_pick_a_kind_by_what_they_do() {
    assert_eq!(symbol_kind("cc_test"), SymbolClass::Event);
    assert_eq!(symbol_kind("test_suite"), SymbolClass::Event);
    assert_eq!(symbol_kind("go_binary"), SymbolClass::Function);
    assert_eq!(symbol_kind("cc_library"), SymbolClass::Module);
    assert_eq!(symbol_kind("py_module"), SymbolClass::Module);
    assert_eq!(symbol_kind("alias"), SymbolClass::Interface);
    assert_eq!(symbol_kind("filegroup"), SymbolClass::File);
    assert_eq!(symbol_kind("genrule"), SymbolClass::Constructor);
    assert_eq!(symbol_kind("run_binary"), SymbolClass::Function);
    assert_eq!(symbol_kind("bool_flag"), SymbolClass::Constant);
    assert_eq!(symbol_kind("my_macro"), SymbolClass::Struct);
}

#[test]
fn a_query_lists_at_most_its_limit() {
    let labels: Vec<String> = (0..600).map(|n| format!("//p:t{n}")).collect();
    let found = workspace_matches(&labels, "T");
    assert_eq!(found.len(), 512);
    assert_eq!(found[0], 0);
    assert_eq!(found[511], 511);
    let found = workspace_matches(&labels, "t59");
    assert_eq!(found, vec![59, 590, 591, 592, 593, 594, 595, 596, 597, 598, 599]);
}
