use bazel_language_server::bazelrc::commands::{applies, names};

#[test]
fn inheritance_is_transitive() {
    assert!(applies("coverage", "test"));
    assert!(applies("coverage", "build"));
    assert!(!applies("build", "test"));
    assert!(applies("query", "common"));
}

#[test]
fn always_and_common_reach_every_command() {
    for name in names() {
        assert!(applies(name, "always"), "{name}");
        assert!(applies(name, "common"), "{name}");
        assert!(applies(name, name), "{name}");
    }
    assert!(!applies("query", "build"));
    assert!(!applies("build", "nonsense"));
}
