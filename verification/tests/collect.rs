use bazel_language_server::collect::{collect_build_file, collect_static_file, collect_tier, BuildCall};
use bazel_language_server::source_kind::StarlarkDialect;
use bazel_language_server::static_index::Index as StaticIndex;
use bazel_language_server::handlers::symbols::TopLevelCall;
use bazel_language_server::index::{Index, Reference, Target, Tier};

const BUILD: &str = "cc_library(\n    name = \"lib\",\n    srcs = [\":gen\", \"//other:dep\"],\n    cmd = \"$(location :tool)\",\n)\n";

fn offset_of(needle: &str) -> usize {
    BUILD.find(needle).unwrap()
}

fn calls() -> Vec<BuildCall> {
    let name = offset_of("lib\"");
    vec![BuildCall {
        call: TopLevelCall {
            rule: Some("cc_library".to_string()),
            start: 0,
            end: BUILD.len() as u32,
            name: Some("lib".to_string()),
            name_range: Some((name as u32, name as u32 + 3)),
        },
        strings: vec![
            (":gen".to_string(), offset_of(":gen")),
            ("//other:dep".to_string(), offset_of("//other:dep")),
            ("$(location :tool)".to_string(), offset_of("$(location")),
        ],
    }]
}

#[test]
fn a_build_file_declares_and_mentions() {
    let mut tier = Tier::new();
    collect_tier(BUILD, &calls(), &"/ws/app/BUILD".to_string(), "app", &mut tier);
    let index = Index::of_disk(tier);
    assert_eq!(
        index.target("//app:lib"),
        Some(&Target {
            name: "lib".to_string(),
            rule: "cc_library".to_string(),
            file: "/ws/app/BUILD".to_string(),
            line: 1,
            character: 12,
            length: 3,
        })
    );
    let gen = index.references("//app:gen");
    assert_eq!(
        gen,
        vec![&Reference { file: "/ws/app/BUILD".to_string(), line: 2, character: 14, length: 3 }]
    );
    // A label in another package is placed at its name, after the colon.
    let dep = index.references("//other:dep");
    assert_eq!(dep.len(), 1);
    assert_eq!((dep[0].line, dep[0].character, dep[0].length), (2, 29, 3));
    // A label inside a make-variable expansion is found there.
    let tool = index.references("//app:tool");
    assert_eq!(tool.len(), 1);
    assert_eq!((tool[0].line, tool[0].character, tool[0].length), (3, 23, 4));
}

#[test]
fn a_build_file_is_parsed_and_collected() {
    let mut tier = Tier::new();
    collect_build_file(BUILD, &"/ws/app/BUILD".to_string(), "app", StarlarkDialect::Bazel, &mut tier);
    let index = Index::of_disk(tier);
    let lib = index.target("//app:lib").unwrap();
    assert_eq!((lib.line, lib.character, lib.length), (1, 12, 3));
    assert_eq!(index.references("//app:gen").len(), 1);
    assert_eq!(index.references("//app:tool").len(), 1);

    let mut static_index = StaticIndex::new();
    let file = static_index.add_file("/ws/app/BUILD".to_string()).unwrap();
    collect_static_file(BUILD, file, "//app", StarlarkDialect::Bazel, &mut static_index);
    let target = static_index.target("//app:lib").unwrap();
    assert_eq!((target.rule.as_str(), target.offset, target.line, target.character), ("cc_library", 0, 1, 12));
}
