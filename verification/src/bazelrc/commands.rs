//! Bazel 8.7 command names and option-inheritance relationships.

use vstd::prelude::*;
use crate::text::{chars_of, same_chars};

verus! {

/// Bazel 8.7 commands plus the three rc-only scopes.
pub open spec fn command_names() -> Seq<Seq<char>> {
    seq![
        "always"@, "common"@, "startup"@, "analyze-profile"@, "aquery"@, "build"@,
        "canonicalize-flags"@, "clean"@, "config"@, "coverage"@, "cquery"@, "dump"@,
        "fetch"@, "help"@, "info"@, "license"@, "mobile-install"@, "mod"@,
        "print_action"@, "query"@, "run"@, "shutdown"@, "sync"@, "test"@, "vendor"@,
        "version"@,
    ]
}

/// Bazel 8.7 commands plus the three rc-only scopes, in order.
pub fn names() -> (names: Vec<&'static str>)
    ensures
        names@.len() == command_names().len(),
        forall|i: int| 0 <= i < names@.len() ==> (#[trigger] names@[i])@ == command_names()[i],
{
    vec![
        "always", "common", "startup", "analyze-profile", "aquery", "build",
        "canonicalize-flags", "clean", "config", "coverage", "cquery", "dump", "fetch", "help",
        "info", "license", "mobile-install", "mod", "print_action", "query", "run", "shutdown",
        "sync", "test", "vendor", "version",
    ]
}

/// Whether a declaration scoped to `defined` participates in `requested`:
/// `always` and `common` reach every command and take part in every one; a
/// command inherits `build` options when it runs a build, and `coverage`,
/// `cquery`, `fetch` and `vendor` inherit `test`'s as well.
pub open spec fn spec_applies(requested: Seq<char>, defined: Seq<char>) -> bool {
    if defined == "always"@ || defined == "common"@ || requested == defined {
        true
    } else if requested == "always"@ || requested == "common"@ {
        true
    } else if requested == "coverage"@ || requested == "cquery"@ || requested == "fetch"@
        || requested == "vendor"@ {
        defined == "test"@ || defined == "build"@
    } else if requested == "aquery"@ || requested == "canonicalize-flags"@ || requested
        == "clean"@ || requested == "config"@ || requested == "info"@ || requested
        == "mobile-install"@ || requested == "print_action"@ || requested == "run"@ || requested
        == "test"@ {
        defined == "build"@
    } else {
        false
    }
}

/// Whether `s` spells `word`.
fn is(s: &[char], word: &str) -> (b: bool)
    ensures
        b == (s@ == word@),
{
    same_chars(s, &chars_of(word))
}

/// Whether a declaration scoped to `defined` participates in `requested`.
pub fn applies(requested: &str, defined: &str) -> (applies: bool)
    ensures
        applies == spec_applies(requested@, defined@),
{
    let r = chars_of(requested);
    let d = chars_of(defined);
    if is(&d, "always") || is(&d, "common") || same_chars(&r, &d) {
        return true;
    }
    if is(&r, "always") || is(&r, "common") {
        return true;
    }
    if is(&r, "coverage") || is(&r, "cquery") || is(&r, "fetch") || is(&r, "vendor") {
        return is(&d, "test") || is(&d, "build");
    }
    if is(&r, "aquery") || is(&r, "canonicalize-flags") || is(&r, "clean") || is(&r, "config")
        || is(&r, "info") || is(&r, "mobile-install") || is(&r, "print_action") || is(&r, "run")
        || is(&r, "test") {
        return is(&d, "build");
    }
    false
}

/// Whether `name` is a Bazel 8.7 command or rc scope.
pub fn is_command(name: &str) -> (b: bool)
    ensures
        b == command_names().contains(name@),
{
    let all = names();
    let c = chars_of(name);
    let mut i: usize = 0;
    while i < all.len()
        invariant
            i <= all@.len(),
            c@ == name@,
            all@.len() == command_names().len(),
            forall|j: int| 0 <= j < all@.len() ==> (#[trigger] all@[j])@ == command_names()[j],
            forall|j: int| 0 <= j < i ==> command_names()[j] != name@,
        decreases all@.len() - i,
    {
        if same_chars(&chars_of(all[i]), &c) {
            assert(command_names()[i as int] == name@);
            return true;
        }
        i = i + 1;
    }
    false
}

/// Whether an rc section for `command` may declare or use a named
/// configuration: a known command or scope, but not `startup`.
pub open spec fn spec_accepts_config(command: Seq<char>) -> bool {
    command_names().contains(command) && command != "startup"@
}

/// Whether an rc section for `command` may declare or use a named
/// configuration.
pub fn accepts_config(command: &str) -> (b: bool)
    ensures
        b == spec_accepts_config(command@),
{
    if is(&chars_of(command), "startup") {
        return false;
    }
    let all = names();
    let c = chars_of(command);
    let mut i: usize = 0;
    while i < all.len()
        invariant
            i <= all@.len(),
            c@ == command@,
            command@ != "startup"@,
            all@.len() == command_names().len(),
            forall|j: int| 0 <= j < all@.len() ==> (#[trigger] all@[j])@ == command_names()[j],
            forall|j: int| 0 <= j < i ==> command_names()[j] != command@,
        decreases all@.len() - i,
    {
        if same_chars(&chars_of(all[i]), &c) {
            assert(command_names()[i as int] == command@);
            return true;
        }
        i = i + 1;
    }
    false
}

/// Inheritance is transitive: a command that takes a section's options,
/// from a section that takes a third's, takes the third's too. The link in
/// the middle may not be `always` or `common`, which take part in every
/// command without every command taking part in them.
pub proof fn inheritance_is_transitive(requested: Seq<char>, middle: Seq<char>, defined: Seq<char>)
    requires
        spec_applies(requested, middle),
        spec_applies(middle, defined),
        middle != "always"@,
        middle != "common"@,
    ensures
        spec_applies(requested, defined),
{
    let names = seq![
        "always"@, "common"@, "coverage"@, "cquery"@, "fetch"@, "vendor"@, "test"@, "build"@,
        "aquery"@, "canonicalize-flags"@, "clean"@, "config"@, "info"@, "mobile-install"@,
        "print_action"@, "run"@,
    ];
    reveal_strlit("always");
    reveal_strlit("common");
    reveal_strlit("coverage");
    reveal_strlit("cquery");
    reveal_strlit("fetch");
    reveal_strlit("vendor");
    reveal_strlit("test");
    reveal_strlit("build");
    reveal_strlit("aquery");
    reveal_strlit("canonicalize-flags");
    reveal_strlit("clean");
    reveal_strlit("config");
    reveal_strlit("info");
    reveal_strlit("mobile-install");
    reveal_strlit("print_action");
    reveal_strlit("run");
    assert forall|a: int, b: int| 0 <= a < b < names.len() implies names[a] != names[b] by {
        if names[a] == names[b] {
            assert(names[a].len() == names[b].len());
            assert(names[a][0] == names[b][0]);
            assert(names[a][1] == names[b][1]);
            assert(names[a][2] == names[b][2]);
        }
    }
    if requested != middle && middle != defined {
        if requested == "always"@ || requested == "common"@ {
        } else if middle == "test"@ {
            assert(names[6] == "test"@);
            assert(defined == "always"@ || defined == "common"@ || defined == "build"@);
        } else {
            assert(middle == "build"@);
            assert(defined == "always"@ || defined == "common"@);
        }
    }
}

} // verus!

verus! {

/// The command words the inheritance rules name are all different.
proof fn lemma_command_words_differ()
    ensures
        "always"@ != "common"@,
        "always"@ != "build"@,
        "always"@ != "aquery"@,
        "always"@ != "canonicalize-flags"@,
        "always"@ != "clean"@,
        "always"@ != "config"@,
        "always"@ != "info"@,
        "always"@ != "mobile-install"@,
        "always"@ != "print_action"@,
        "always"@ != "run"@,
        "always"@ != "test"@,
        "always"@ != "coverage"@,
        "always"@ != "cquery"@,
        "always"@ != "fetch"@,
        "always"@ != "vendor"@,
        "common"@ != "build"@,
        "common"@ != "aquery"@,
        "common"@ != "canonicalize-flags"@,
        "common"@ != "clean"@,
        "common"@ != "config"@,
        "common"@ != "info"@,
        "common"@ != "mobile-install"@,
        "common"@ != "print_action"@,
        "common"@ != "run"@,
        "common"@ != "test"@,
        "common"@ != "coverage"@,
        "common"@ != "cquery"@,
        "common"@ != "fetch"@,
        "common"@ != "vendor"@,
        "build"@ != "aquery"@,
        "build"@ != "canonicalize-flags"@,
        "build"@ != "clean"@,
        "build"@ != "config"@,
        "build"@ != "info"@,
        "build"@ != "mobile-install"@,
        "build"@ != "print_action"@,
        "build"@ != "run"@,
        "build"@ != "test"@,
        "build"@ != "coverage"@,
        "build"@ != "cquery"@,
        "build"@ != "fetch"@,
        "build"@ != "vendor"@,
        "aquery"@ != "canonicalize-flags"@,
        "aquery"@ != "clean"@,
        "aquery"@ != "config"@,
        "aquery"@ != "info"@,
        "aquery"@ != "mobile-install"@,
        "aquery"@ != "print_action"@,
        "aquery"@ != "run"@,
        "aquery"@ != "test"@,
        "aquery"@ != "coverage"@,
        "aquery"@ != "cquery"@,
        "aquery"@ != "fetch"@,
        "aquery"@ != "vendor"@,
        "canonicalize-flags"@ != "clean"@,
        "canonicalize-flags"@ != "config"@,
        "canonicalize-flags"@ != "info"@,
        "canonicalize-flags"@ != "mobile-install"@,
        "canonicalize-flags"@ != "print_action"@,
        "canonicalize-flags"@ != "run"@,
        "canonicalize-flags"@ != "test"@,
        "canonicalize-flags"@ != "coverage"@,
        "canonicalize-flags"@ != "cquery"@,
        "canonicalize-flags"@ != "fetch"@,
        "canonicalize-flags"@ != "vendor"@,
        "clean"@ != "config"@,
        "clean"@ != "info"@,
        "clean"@ != "mobile-install"@,
        "clean"@ != "print_action"@,
        "clean"@ != "run"@,
        "clean"@ != "test"@,
        "clean"@ != "coverage"@,
        "clean"@ != "cquery"@,
        "clean"@ != "fetch"@,
        "clean"@ != "vendor"@,
        "config"@ != "info"@,
        "config"@ != "mobile-install"@,
        "config"@ != "print_action"@,
        "config"@ != "run"@,
        "config"@ != "test"@,
        "config"@ != "coverage"@,
        "config"@ != "cquery"@,
        "config"@ != "fetch"@,
        "config"@ != "vendor"@,
        "info"@ != "mobile-install"@,
        "info"@ != "print_action"@,
        "info"@ != "run"@,
        "info"@ != "test"@,
        "info"@ != "coverage"@,
        "info"@ != "cquery"@,
        "info"@ != "fetch"@,
        "info"@ != "vendor"@,
        "mobile-install"@ != "print_action"@,
        "mobile-install"@ != "run"@,
        "mobile-install"@ != "test"@,
        "mobile-install"@ != "coverage"@,
        "mobile-install"@ != "cquery"@,
        "mobile-install"@ != "fetch"@,
        "mobile-install"@ != "vendor"@,
        "print_action"@ != "run"@,
        "print_action"@ != "test"@,
        "print_action"@ != "coverage"@,
        "print_action"@ != "cquery"@,
        "print_action"@ != "fetch"@,
        "print_action"@ != "vendor"@,
        "run"@ != "test"@,
        "run"@ != "coverage"@,
        "run"@ != "cquery"@,
        "run"@ != "fetch"@,
        "run"@ != "vendor"@,
        "test"@ != "coverage"@,
        "test"@ != "cquery"@,
        "test"@ != "fetch"@,
        "test"@ != "vendor"@,
        "coverage"@ != "cquery"@,
        "coverage"@ != "fetch"@,
        "coverage"@ != "vendor"@,
        "cquery"@ != "fetch"@,
        "cquery"@ != "vendor"@,
        "fetch"@ != "vendor"@,
{
    reveal_strlit("always");
    reveal_strlit("aquery");
    reveal_strlit("build");
    reveal_strlit("canonicalize-flags");
    reveal_strlit("clean");
    reveal_strlit("common");
    reveal_strlit("config");
    reveal_strlit("coverage");
    reveal_strlit("cquery");
    reveal_strlit("fetch");
    reveal_strlit("info");
    reveal_strlit("mobile-install");
    reveal_strlit("print_action");
    reveal_strlit("run");
    reveal_strlit("test");
    reveal_strlit("vendor");
    assert("always"@ != "common"@) by {
        if "always"@ == "common"@ {
            assert("always"@[0] == "common"@[0] && "always"@[1] == "common"@[1] && "always"@[2] == "common"@[2]);
        }
    }
    assert("always"@ != "build"@) by {
        if "always"@ == "build"@ {
            assert("always"@.len() == "build"@.len());
        }
    }
    assert("always"@ != "aquery"@) by {
        if "always"@ == "aquery"@ {
            assert("always"@[0] == "aquery"@[0] && "always"@[1] == "aquery"@[1] && "always"@[2] == "aquery"@[2]);
        }
    }
    assert("always"@ != "canonicalize-flags"@) by {
        if "always"@ == "canonicalize-flags"@ {
            assert("always"@.len() == "canonicalize-flags"@.len());
        }
    }
    assert("always"@ != "clean"@) by {
        if "always"@ == "clean"@ {
            assert("always"@.len() == "clean"@.len());
        }
    }
    assert("always"@ != "config"@) by {
        if "always"@ == "config"@ {
            assert("always"@[0] == "config"@[0] && "always"@[1] == "config"@[1] && "always"@[2] == "config"@[2]);
        }
    }
    assert("always"@ != "info"@) by {
        if "always"@ == "info"@ {
            assert("always"@.len() == "info"@.len());
        }
    }
    assert("always"@ != "mobile-install"@) by {
        if "always"@ == "mobile-install"@ {
            assert("always"@.len() == "mobile-install"@.len());
        }
    }
    assert("always"@ != "print_action"@) by {
        if "always"@ == "print_action"@ {
            assert("always"@.len() == "print_action"@.len());
        }
    }
    assert("always"@ != "run"@) by {
        if "always"@ == "run"@ {
            assert("always"@.len() == "run"@.len());
        }
    }
    assert("always"@ != "test"@) by {
        if "always"@ == "test"@ {
            assert("always"@.len() == "test"@.len());
        }
    }
    assert("always"@ != "coverage"@) by {
        if "always"@ == "coverage"@ {
            assert("always"@.len() == "coverage"@.len());
        }
    }
    assert("always"@ != "cquery"@) by {
        if "always"@ == "cquery"@ {
            assert("always"@[0] == "cquery"@[0] && "always"@[1] == "cquery"@[1] && "always"@[2] == "cquery"@[2]);
        }
    }
    assert("always"@ != "fetch"@) by {
        if "always"@ == "fetch"@ {
            assert("always"@.len() == "fetch"@.len());
        }
    }
    assert("always"@ != "vendor"@) by {
        if "always"@ == "vendor"@ {
            assert("always"@[0] == "vendor"@[0] && "always"@[1] == "vendor"@[1] && "always"@[2] == "vendor"@[2]);
        }
    }
    assert("common"@ != "build"@) by {
        if "common"@ == "build"@ {
            assert("common"@.len() == "build"@.len());
        }
    }
    assert("common"@ != "aquery"@) by {
        if "common"@ == "aquery"@ {
            assert("common"@[0] == "aquery"@[0] && "common"@[1] == "aquery"@[1] && "common"@[2] == "aquery"@[2]);
        }
    }
    assert("common"@ != "canonicalize-flags"@) by {
        if "common"@ == "canonicalize-flags"@ {
            assert("common"@.len() == "canonicalize-flags"@.len());
        }
    }
    assert("common"@ != "clean"@) by {
        if "common"@ == "clean"@ {
            assert("common"@.len() == "clean"@.len());
        }
    }
    assert("common"@ != "config"@) by {
        if "common"@ == "config"@ {
            assert("common"@[0] == "config"@[0] && "common"@[1] == "config"@[1] && "common"@[2] == "config"@[2]);
        }
    }
    assert("common"@ != "info"@) by {
        if "common"@ == "info"@ {
            assert("common"@.len() == "info"@.len());
        }
    }
    assert("common"@ != "mobile-install"@) by {
        if "common"@ == "mobile-install"@ {
            assert("common"@.len() == "mobile-install"@.len());
        }
    }
    assert("common"@ != "print_action"@) by {
        if "common"@ == "print_action"@ {
            assert("common"@.len() == "print_action"@.len());
        }
    }
    assert("common"@ != "run"@) by {
        if "common"@ == "run"@ {
            assert("common"@.len() == "run"@.len());
        }
    }
    assert("common"@ != "test"@) by {
        if "common"@ == "test"@ {
            assert("common"@.len() == "test"@.len());
        }
    }
    assert("common"@ != "coverage"@) by {
        if "common"@ == "coverage"@ {
            assert("common"@.len() == "coverage"@.len());
        }
    }
    assert("common"@ != "cquery"@) by {
        if "common"@ == "cquery"@ {
            assert("common"@[0] == "cquery"@[0] && "common"@[1] == "cquery"@[1] && "common"@[2] == "cquery"@[2]);
        }
    }
    assert("common"@ != "fetch"@) by {
        if "common"@ == "fetch"@ {
            assert("common"@.len() == "fetch"@.len());
        }
    }
    assert("common"@ != "vendor"@) by {
        if "common"@ == "vendor"@ {
            assert("common"@[0] == "vendor"@[0] && "common"@[1] == "vendor"@[1] && "common"@[2] == "vendor"@[2]);
        }
    }
    assert("build"@ != "aquery"@) by {
        if "build"@ == "aquery"@ {
            assert("build"@.len() == "aquery"@.len());
        }
    }
    assert("build"@ != "canonicalize-flags"@) by {
        if "build"@ == "canonicalize-flags"@ {
            assert("build"@.len() == "canonicalize-flags"@.len());
        }
    }
    assert("build"@ != "clean"@) by {
        if "build"@ == "clean"@ {
            assert("build"@[0] == "clean"@[0] && "build"@[1] == "clean"@[1] && "build"@[2] == "clean"@[2]);
        }
    }
    assert("build"@ != "config"@) by {
        if "build"@ == "config"@ {
            assert("build"@.len() == "config"@.len());
        }
    }
    assert("build"@ != "info"@) by {
        if "build"@ == "info"@ {
            assert("build"@.len() == "info"@.len());
        }
    }
    assert("build"@ != "mobile-install"@) by {
        if "build"@ == "mobile-install"@ {
            assert("build"@.len() == "mobile-install"@.len());
        }
    }
    assert("build"@ != "print_action"@) by {
        if "build"@ == "print_action"@ {
            assert("build"@.len() == "print_action"@.len());
        }
    }
    assert("build"@ != "run"@) by {
        if "build"@ == "run"@ {
            assert("build"@.len() == "run"@.len());
        }
    }
    assert("build"@ != "test"@) by {
        if "build"@ == "test"@ {
            assert("build"@.len() == "test"@.len());
        }
    }
    assert("build"@ != "coverage"@) by {
        if "build"@ == "coverage"@ {
            assert("build"@.len() == "coverage"@.len());
        }
    }
    assert("build"@ != "cquery"@) by {
        if "build"@ == "cquery"@ {
            assert("build"@.len() == "cquery"@.len());
        }
    }
    assert("build"@ != "fetch"@) by {
        if "build"@ == "fetch"@ {
            assert("build"@[0] == "fetch"@[0] && "build"@[1] == "fetch"@[1] && "build"@[2] == "fetch"@[2]);
        }
    }
    assert("build"@ != "vendor"@) by {
        if "build"@ == "vendor"@ {
            assert("build"@.len() == "vendor"@.len());
        }
    }
    assert("aquery"@ != "canonicalize-flags"@) by {
        if "aquery"@ == "canonicalize-flags"@ {
            assert("aquery"@.len() == "canonicalize-flags"@.len());
        }
    }
    assert("aquery"@ != "clean"@) by {
        if "aquery"@ == "clean"@ {
            assert("aquery"@.len() == "clean"@.len());
        }
    }
    assert("aquery"@ != "config"@) by {
        if "aquery"@ == "config"@ {
            assert("aquery"@[0] == "config"@[0] && "aquery"@[1] == "config"@[1] && "aquery"@[2] == "config"@[2]);
        }
    }
    assert("aquery"@ != "info"@) by {
        if "aquery"@ == "info"@ {
            assert("aquery"@.len() == "info"@.len());
        }
    }
    assert("aquery"@ != "mobile-install"@) by {
        if "aquery"@ == "mobile-install"@ {
            assert("aquery"@.len() == "mobile-install"@.len());
        }
    }
    assert("aquery"@ != "print_action"@) by {
        if "aquery"@ == "print_action"@ {
            assert("aquery"@.len() == "print_action"@.len());
        }
    }
    assert("aquery"@ != "run"@) by {
        if "aquery"@ == "run"@ {
            assert("aquery"@.len() == "run"@.len());
        }
    }
    assert("aquery"@ != "test"@) by {
        if "aquery"@ == "test"@ {
            assert("aquery"@.len() == "test"@.len());
        }
    }
    assert("aquery"@ != "coverage"@) by {
        if "aquery"@ == "coverage"@ {
            assert("aquery"@.len() == "coverage"@.len());
        }
    }
    assert("aquery"@ != "cquery"@) by {
        if "aquery"@ == "cquery"@ {
            assert("aquery"@[0] == "cquery"@[0] && "aquery"@[1] == "cquery"@[1] && "aquery"@[2] == "cquery"@[2]);
        }
    }
    assert("aquery"@ != "fetch"@) by {
        if "aquery"@ == "fetch"@ {
            assert("aquery"@.len() == "fetch"@.len());
        }
    }
    assert("aquery"@ != "vendor"@) by {
        if "aquery"@ == "vendor"@ {
            assert("aquery"@[0] == "vendor"@[0] && "aquery"@[1] == "vendor"@[1] && "aquery"@[2] == "vendor"@[2]);
        }
    }
    assert("canonicalize-flags"@ != "clean"@) by {
        if "canonicalize-flags"@ == "clean"@ {
            assert("canonicalize-flags"@.len() == "clean"@.len());
        }
    }
    assert("canonicalize-flags"@ != "config"@) by {
        if "canonicalize-flags"@ == "config"@ {
            assert("canonicalize-flags"@.len() == "config"@.len());
        }
    }
    assert("canonicalize-flags"@ != "info"@) by {
        if "canonicalize-flags"@ == "info"@ {
            assert("canonicalize-flags"@.len() == "info"@.len());
        }
    }
    assert("canonicalize-flags"@ != "mobile-install"@) by {
        if "canonicalize-flags"@ == "mobile-install"@ {
            assert("canonicalize-flags"@.len() == "mobile-install"@.len());
        }
    }
    assert("canonicalize-flags"@ != "print_action"@) by {
        if "canonicalize-flags"@ == "print_action"@ {
            assert("canonicalize-flags"@.len() == "print_action"@.len());
        }
    }
    assert("canonicalize-flags"@ != "run"@) by {
        if "canonicalize-flags"@ == "run"@ {
            assert("canonicalize-flags"@.len() == "run"@.len());
        }
    }
    assert("canonicalize-flags"@ != "test"@) by {
        if "canonicalize-flags"@ == "test"@ {
            assert("canonicalize-flags"@.len() == "test"@.len());
        }
    }
    assert("canonicalize-flags"@ != "coverage"@) by {
        if "canonicalize-flags"@ == "coverage"@ {
            assert("canonicalize-flags"@.len() == "coverage"@.len());
        }
    }
    assert("canonicalize-flags"@ != "cquery"@) by {
        if "canonicalize-flags"@ == "cquery"@ {
            assert("canonicalize-flags"@.len() == "cquery"@.len());
        }
    }
    assert("canonicalize-flags"@ != "fetch"@) by {
        if "canonicalize-flags"@ == "fetch"@ {
            assert("canonicalize-flags"@.len() == "fetch"@.len());
        }
    }
    assert("canonicalize-flags"@ != "vendor"@) by {
        if "canonicalize-flags"@ == "vendor"@ {
            assert("canonicalize-flags"@.len() == "vendor"@.len());
        }
    }
    assert("clean"@ != "config"@) by {
        if "clean"@ == "config"@ {
            assert("clean"@.len() == "config"@.len());
        }
    }
    assert("clean"@ != "info"@) by {
        if "clean"@ == "info"@ {
            assert("clean"@.len() == "info"@.len());
        }
    }
    assert("clean"@ != "mobile-install"@) by {
        if "clean"@ == "mobile-install"@ {
            assert("clean"@.len() == "mobile-install"@.len());
        }
    }
    assert("clean"@ != "print_action"@) by {
        if "clean"@ == "print_action"@ {
            assert("clean"@.len() == "print_action"@.len());
        }
    }
    assert("clean"@ != "run"@) by {
        if "clean"@ == "run"@ {
            assert("clean"@.len() == "run"@.len());
        }
    }
    assert("clean"@ != "test"@) by {
        if "clean"@ == "test"@ {
            assert("clean"@.len() == "test"@.len());
        }
    }
    assert("clean"@ != "coverage"@) by {
        if "clean"@ == "coverage"@ {
            assert("clean"@.len() == "coverage"@.len());
        }
    }
    assert("clean"@ != "cquery"@) by {
        if "clean"@ == "cquery"@ {
            assert("clean"@.len() == "cquery"@.len());
        }
    }
    assert("clean"@ != "fetch"@) by {
        if "clean"@ == "fetch"@ {
            assert("clean"@[0] == "fetch"@[0] && "clean"@[1] == "fetch"@[1] && "clean"@[2] == "fetch"@[2]);
        }
    }
    assert("clean"@ != "vendor"@) by {
        if "clean"@ == "vendor"@ {
            assert("clean"@.len() == "vendor"@.len());
        }
    }
    assert("config"@ != "info"@) by {
        if "config"@ == "info"@ {
            assert("config"@.len() == "info"@.len());
        }
    }
    assert("config"@ != "mobile-install"@) by {
        if "config"@ == "mobile-install"@ {
            assert("config"@.len() == "mobile-install"@.len());
        }
    }
    assert("config"@ != "print_action"@) by {
        if "config"@ == "print_action"@ {
            assert("config"@.len() == "print_action"@.len());
        }
    }
    assert("config"@ != "run"@) by {
        if "config"@ == "run"@ {
            assert("config"@.len() == "run"@.len());
        }
    }
    assert("config"@ != "test"@) by {
        if "config"@ == "test"@ {
            assert("config"@.len() == "test"@.len());
        }
    }
    assert("config"@ != "coverage"@) by {
        if "config"@ == "coverage"@ {
            assert("config"@.len() == "coverage"@.len());
        }
    }
    assert("config"@ != "cquery"@) by {
        if "config"@ == "cquery"@ {
            assert("config"@[0] == "cquery"@[0] && "config"@[1] == "cquery"@[1] && "config"@[2] == "cquery"@[2]);
        }
    }
    assert("config"@ != "fetch"@) by {
        if "config"@ == "fetch"@ {
            assert("config"@.len() == "fetch"@.len());
        }
    }
    assert("config"@ != "vendor"@) by {
        if "config"@ == "vendor"@ {
            assert("config"@[0] == "vendor"@[0] && "config"@[1] == "vendor"@[1] && "config"@[2] == "vendor"@[2]);
        }
    }
    assert("info"@ != "mobile-install"@) by {
        if "info"@ == "mobile-install"@ {
            assert("info"@.len() == "mobile-install"@.len());
        }
    }
    assert("info"@ != "print_action"@) by {
        if "info"@ == "print_action"@ {
            assert("info"@.len() == "print_action"@.len());
        }
    }
    assert("info"@ != "run"@) by {
        if "info"@ == "run"@ {
            assert("info"@.len() == "run"@.len());
        }
    }
    assert("info"@ != "test"@) by {
        if "info"@ == "test"@ {
            assert("info"@[0] == "test"@[0] && "info"@[1] == "test"@[1] && "info"@[2] == "test"@[2]);
        }
    }
    assert("info"@ != "coverage"@) by {
        if "info"@ == "coverage"@ {
            assert("info"@.len() == "coverage"@.len());
        }
    }
    assert("info"@ != "cquery"@) by {
        if "info"@ == "cquery"@ {
            assert("info"@.len() == "cquery"@.len());
        }
    }
    assert("info"@ != "fetch"@) by {
        if "info"@ == "fetch"@ {
            assert("info"@.len() == "fetch"@.len());
        }
    }
    assert("info"@ != "vendor"@) by {
        if "info"@ == "vendor"@ {
            assert("info"@.len() == "vendor"@.len());
        }
    }
    assert("mobile-install"@ != "print_action"@) by {
        if "mobile-install"@ == "print_action"@ {
            assert("mobile-install"@.len() == "print_action"@.len());
        }
    }
    assert("mobile-install"@ != "run"@) by {
        if "mobile-install"@ == "run"@ {
            assert("mobile-install"@.len() == "run"@.len());
        }
    }
    assert("mobile-install"@ != "test"@) by {
        if "mobile-install"@ == "test"@ {
            assert("mobile-install"@.len() == "test"@.len());
        }
    }
    assert("mobile-install"@ != "coverage"@) by {
        if "mobile-install"@ == "coverage"@ {
            assert("mobile-install"@.len() == "coverage"@.len());
        }
    }
    assert("mobile-install"@ != "cquery"@) by {
        if "mobile-install"@ == "cquery"@ {
            assert("mobile-install"@.len() == "cquery"@.len());
        }
    }
    assert("mobile-install"@ != "fetch"@) by {
        if "mobile-install"@ == "fetch"@ {
            assert("mobile-install"@.len() == "fetch"@.len());
        }
    }
    assert("mobile-install"@ != "vendor"@) by {
        if "mobile-install"@ == "vendor"@ {
            assert("mobile-install"@.len() == "vendor"@.len());
        }
    }
    assert("print_action"@ != "run"@) by {
        if "print_action"@ == "run"@ {
            assert("print_action"@.len() == "run"@.len());
        }
    }
    assert("print_action"@ != "test"@) by {
        if "print_action"@ == "test"@ {
            assert("print_action"@.len() == "test"@.len());
        }
    }
    assert("print_action"@ != "coverage"@) by {
        if "print_action"@ == "coverage"@ {
            assert("print_action"@.len() == "coverage"@.len());
        }
    }
    assert("print_action"@ != "cquery"@) by {
        if "print_action"@ == "cquery"@ {
            assert("print_action"@.len() == "cquery"@.len());
        }
    }
    assert("print_action"@ != "fetch"@) by {
        if "print_action"@ == "fetch"@ {
            assert("print_action"@.len() == "fetch"@.len());
        }
    }
    assert("print_action"@ != "vendor"@) by {
        if "print_action"@ == "vendor"@ {
            assert("print_action"@.len() == "vendor"@.len());
        }
    }
    assert("run"@ != "test"@) by {
        if "run"@ == "test"@ {
            assert("run"@.len() == "test"@.len());
        }
    }
    assert("run"@ != "coverage"@) by {
        if "run"@ == "coverage"@ {
            assert("run"@.len() == "coverage"@.len());
        }
    }
    assert("run"@ != "cquery"@) by {
        if "run"@ == "cquery"@ {
            assert("run"@.len() == "cquery"@.len());
        }
    }
    assert("run"@ != "fetch"@) by {
        if "run"@ == "fetch"@ {
            assert("run"@.len() == "fetch"@.len());
        }
    }
    assert("run"@ != "vendor"@) by {
        if "run"@ == "vendor"@ {
            assert("run"@.len() == "vendor"@.len());
        }
    }
    assert("test"@ != "coverage"@) by {
        if "test"@ == "coverage"@ {
            assert("test"@.len() == "coverage"@.len());
        }
    }
    assert("test"@ != "cquery"@) by {
        if "test"@ == "cquery"@ {
            assert("test"@.len() == "cquery"@.len());
        }
    }
    assert("test"@ != "fetch"@) by {
        if "test"@ == "fetch"@ {
            assert("test"@.len() == "fetch"@.len());
        }
    }
    assert("test"@ != "vendor"@) by {
        if "test"@ == "vendor"@ {
            assert("test"@.len() == "vendor"@.len());
        }
    }
    assert("coverage"@ != "cquery"@) by {
        if "coverage"@ == "cquery"@ {
            assert("coverage"@.len() == "cquery"@.len());
        }
    }
    assert("coverage"@ != "fetch"@) by {
        if "coverage"@ == "fetch"@ {
            assert("coverage"@.len() == "fetch"@.len());
        }
    }
    assert("coverage"@ != "vendor"@) by {
        if "coverage"@ == "vendor"@ {
            assert("coverage"@.len() == "vendor"@.len());
        }
    }
    assert("cquery"@ != "fetch"@) by {
        if "cquery"@ == "fetch"@ {
            assert("cquery"@.len() == "fetch"@.len());
        }
    }
    assert("cquery"@ != "vendor"@) by {
        if "cquery"@ == "vendor"@ {
            assert("cquery"@[0] == "vendor"@[0] && "cquery"@[1] == "vendor"@[1] && "cquery"@[2] == "vendor"@[2]);
        }
    }
    assert("fetch"@ != "vendor"@) by {
        if "fetch"@ == "vendor"@ {
            assert("fetch"@.len() == "vendor"@.len());
        }
    }
}

/// The commands that take the options of a `build` section: every command
/// that runs a build (`aquery`, `canonicalize-flags`, `clean`, `config`,
/// `info`, `mobile-install`, `print_action`, `run`, `test`, and through
/// `test` `coverage`, `cquery`, `fetch` and `vendor`), `build` itself, and
/// the `always` and `common` scopes; no other.
pub proof fn which_commands_take_build_options(c: Seq<char>)
    ensures
        spec_applies(c, "build"@) <==> seq![
            "always"@, "common"@, "build"@, "aquery"@, "canonicalize-flags"@, "clean"@, "config"@, "info"@, "mobile-install"@, "print_action"@, "run"@, "test"@, "coverage"@, "cquery"@, "fetch"@, "vendor"@,
        ].contains(c),
{
    let listed: Seq<Seq<char>> = seq![
        "always"@, "common"@, "build"@, "aquery"@, "canonicalize-flags"@, "clean"@, "config"@, "info"@, "mobile-install"@, "print_action"@, "run"@, "test"@, "coverage"@, "cquery"@, "fetch"@, "vendor"@,
    ];
    lemma_command_words_differ();
    if spec_applies(c, "build"@) {
        if c == "always"@ {
            assert(listed[0] == c);
        } else if c == "common"@ {
            assert(listed[1] == c);
        } else if c == "build"@ {
            assert(listed[2] == c);
        } else if c == "aquery"@ {
            assert(listed[3] == c);
        } else if c == "canonicalize-flags"@ {
            assert(listed[4] == c);
        } else if c == "clean"@ {
            assert(listed[5] == c);
        } else if c == "config"@ {
            assert(listed[6] == c);
        } else if c == "info"@ {
            assert(listed[7] == c);
        } else if c == "mobile-install"@ {
            assert(listed[8] == c);
        } else if c == "print_action"@ {
            assert(listed[9] == c);
        } else if c == "run"@ {
            assert(listed[10] == c);
        } else if c == "test"@ {
            assert(listed[11] == c);
        } else if c == "coverage"@ {
            assert(listed[12] == c);
        } else if c == "cquery"@ {
            assert(listed[13] == c);
        } else if c == "fetch"@ {
            assert(listed[14] == c);
        } else if c == "vendor"@ {
            assert(listed[15] == c);
        }
    }
    if listed.contains(c) {
        let i = choose|i: int| 0 <= i < listed.len() && listed[i] == c;
        if i == 0 {
            assert(c == "always"@);
        } else if i == 1 {
            assert(c == "common"@);
        } else if i == 2 {
            assert(c == "build"@);
        } else if i == 3 {
            assert(c == "aquery"@);
        } else if i == 4 {
            assert(c == "canonicalize-flags"@);
        } else if i == 5 {
            assert(c == "clean"@);
        } else if i == 6 {
            assert(c == "config"@);
        } else if i == 7 {
            assert(c == "info"@);
        } else if i == 8 {
            assert(c == "mobile-install"@);
        } else if i == 9 {
            assert(c == "print_action"@);
        } else if i == 10 {
            assert(c == "run"@);
        } else if i == 11 {
            assert(c == "test"@);
        } else if i == 12 {
            assert(c == "coverage"@);
        } else if i == 13 {
            assert(c == "cquery"@);
        } else if i == 14 {
            assert(c == "fetch"@);
        } else if i == 15 {
            assert(c == "vendor"@);
        }
    }
}

/// The commands that take the options of a `test` section: `test`,
/// `coverage`, `cquery`, `fetch` and `vendor`, and the `always` and
/// `common` scopes; no other.
pub proof fn which_commands_take_test_options(c: Seq<char>)
    ensures
        spec_applies(c, "test"@) <==> seq![
            "always"@, "common"@, "test"@, "coverage"@, "cquery"@, "fetch"@, "vendor"@,
        ].contains(c),
{
    let listed: Seq<Seq<char>> = seq![
        "always"@, "common"@, "test"@, "coverage"@, "cquery"@, "fetch"@, "vendor"@,
    ];
    lemma_command_words_differ();
    if spec_applies(c, "test"@) {
        if c == "always"@ {
            assert(listed[0] == c);
        } else if c == "common"@ {
            assert(listed[1] == c);
        } else if c == "test"@ {
            assert(listed[2] == c);
        } else if c == "coverage"@ {
            assert(listed[3] == c);
        } else if c == "cquery"@ {
            assert(listed[4] == c);
        } else if c == "fetch"@ {
            assert(listed[5] == c);
        } else if c == "vendor"@ {
            assert(listed[6] == c);
        }
    }
    if listed.contains(c) {
        let i = choose|i: int| 0 <= i < listed.len() && listed[i] == c;
        if i == 0 {
            assert(c == "always"@);
        } else if i == 1 {
            assert(c == "common"@);
        } else if i == 2 {
            assert(c == "test"@);
        } else if i == 3 {
            assert(c == "coverage"@);
        } else if i == 4 {
            assert(c == "cquery"@);
        } else if i == 5 {
            assert(c == "fetch"@);
        } else if i == 6 {
            assert(c == "vendor"@);
        }
    }
}

/// An `always` or `common` section takes part in every command, and a
/// section for a command takes part in that command.
pub proof fn every_command_takes_its_own_and_the_shared_sections(c: Seq<char>)
    ensures
        spec_applies(c, "always"@),
        spec_applies(c, "common"@),
        spec_applies(c, c),
{
}

/// A section for any other command takes part only in that command (and
/// in the `always` and `common` scopes, which take part in everything).
pub proof fn other_sections_stay_with_their_command(c: Seq<char>, defined: Seq<char>)
    requires
        defined != "always"@,
        defined != "common"@,
        defined != "build"@,
        defined != "test"@,
    ensures
        spec_applies(c, defined) <==> (c == defined || c == "always"@ || c == "common"@),
{
}

} // verus!
