use bazel_language_server::bazelrc::semver::{Comparison, VersionCondition};
use bazel_language_server::bazelrc::syntax::{
    config_declaration, config_references, parse, Directive, Span, Statement,
};

#[test]
fn continuation_is_deleted_before_tokenization() {
    let text = "build --define=one=\\\n two # tail\n";
    let parsed = parse(text);
    assert!(parsed.errors.is_empty());
    let line = &parsed.lines[0];
    assert_eq!(
        line.tokens
            .iter()
            .map(|token| token.text.as_str())
            .collect::<Vec<_>>(),
        ["build", "--define=one=", "two"]
    );
    assert_eq!(line.tokens[1].range, Span::new(6, 21));
    assert_eq!(line.comment, Some(Span::new(26, 32)));
}

#[test]
fn comments_quotes_and_escapes_match_the_native_tokenizer() {
    let parsed = parse("build foo' bar'\"#baz\" qux\\ quux end#comment\n");
    let line = &parsed.lines[0];
    assert_eq!(
        line.tokens
            .iter()
            .map(|token| token.text.as_str())
            .collect::<Vec<_>>(),
        ["build", "foo bar#baz", "qux quux", "end"]
    );
    assert_eq!(
        &parse("common '' --define=x=1\n").lines[0]
            .tokens
            .iter()
            .map(|token| token.text.as_str())
            .collect::<Vec<_>>(),
        &["common", "--define=x=1"]
    );
}

#[test]
fn unfinished_quotes_and_escapes_are_not_syntax_errors() {
    for text in ["build '--define=x=1\n", "build --define=x=1\\\n"] {
        assert!(parse(text).errors.is_empty(), "{text:?}");
    }
}

#[test]
fn directives_have_exact_arity_and_conditions() {
    let parsed =
        parse("import one two\ntry-import maybe\ntry-import-if-bazel-version >=8.7.0 path\n");
    assert_eq!(parsed.errors.len(), 1);
    assert_eq!(
        parsed.lines[1].statement,
        Some(Statement::Directive(Directive::TryImport))
    );
    assert!(matches!(
        parsed.lines[2].statement,
        Some(Statement::Directive(Directive::ConditionalImport(_)))
    ));
}

#[test]
fn an_argless_entry_does_not_declare_an_empty_config() {
    let parsed = parse("common:empty\n");
    assert_eq!(parsed.lines[0].statement, None);
    assert!(config_declaration(&parsed.lines[0]).is_none());

    let text = "common:present --define=x=1\n";
    let parsed = parse(text);
    let declaration = config_declaration(&parsed.lines[0]).unwrap();
    assert_eq!(
        (declaration.command.as_str(), declaration.name.as_str()),
        ("common", "present")
    );
    assert_eq!(
        &text[declaration.range.start..declaration.range.end],
        "present"
    );
}

#[test]
fn config_names_map_decoded_bytes_to_exact_physical_spans() {
    let text = "'build:de\\v' --config=\"ch\\ild\"\n";
    let parsed = parse(text);
    let declaration = config_declaration(&parsed.lines[0]).unwrap();
    assert_eq!(declaration.name, "dev");
    assert_eq!(
        &text[declaration.range.start..declaration.range.end],
        "de\\v"
    );
    let reference = &config_references(&parsed.lines[0])[0];
    assert_eq!(reference.name, "child");
    assert_eq!(&text[reference.range.start..reference.range.end], "ch\\ild");
}

#[test]
fn split_config_references_are_only_top_level() {
    let parsed = parse("build --config dev\nbuild:outer --config inner\n");
    assert_eq!(config_references(&parsed.lines[0])[0].name, "dev");
    assert!(config_references(&parsed.lines[1]).is_empty());
}

#[test]
fn conditions_follow_semver_precedence() {
    assert!(
        !VersionCondition::parse(">=8.7.0")
            .unwrap()
            .matches("8.7.0-imc2")
    );
    assert!(
        VersionCondition::parse(">=8.7.0-imc2")
            .unwrap()
            .matches("8.7.0-imc2")
    );
    assert!(VersionCondition::parse("~8").unwrap().matches("8.99.0"));
    assert!(!VersionCondition::parse("~8.2").unwrap().matches("8.3.0"));
    assert!(VersionCondition::parse("~8.2.4").unwrap().matches("8.2.99"));
    assert!(
        VersionCondition::parse("==8.7.0+one")
            .unwrap()
            .matches("8.7.0+two")
    );
    assert!(VersionCondition::parse(">=8.7").is_none());
    assert!(VersionCondition::parse("~08").is_none());
}

#[test]
fn crlf_continuation_has_one_logical_line() {
    let text = "build --define=x=\\\r\ny\r\n";
    let parsed = parse(text);
    assert_eq!(parsed.lines[0].options()[0].text, "--define=x=y");
    assert_eq!(parsed.lines[0].options()[0].range, Span::new(6, 21));
}

#[test]
fn a_condition_reports_its_comparison() {
    assert_eq!(VersionCondition::parse(">=8.0.0").unwrap().comparison(), Comparison::GreaterEqual);
    assert!(VersionCondition::parse("8.0.0").is_none());
}

#[test]
fn a_line_key_is_its_first_token() {
    let parsed = parse("build:ci --jobs=4\n\n# only a comment\n");
    assert_eq!(parsed.lines[0].key().unwrap().text, "build:ci");
    assert_eq!(parsed.lines[0].options().len(), 1);
    assert!(parsed.lines[1].key().is_none());
    assert!(parsed.lines[2].options().is_empty());
}

#[test]
fn a_decoded_span_maps_back_to_the_source() {
    let text = "build --def\\ine=x\n";
    let parsed = parse(text);
    let token = &parsed.lines[0].tokens[1];
    assert_eq!(token.text, "--define=x");
    let span = token.decoded_span(2..8).unwrap();
    assert_eq!(&text[span.start..span.end], "def\\ine");
    assert!(token.decoded_span(5..50).is_none());
}

#[test]
fn each_refused_directive_raises_one_error() {
    let parsed = parse(
        "import\ntry-import a b\ntry-import-if-bazel-version >=x path\nbuild --x\nimport %workspace%/ok.bazelrc\n",
    );
    let refused = parsed
        .lines
        .iter()
        .filter(|line| matches!(line.statement, Some(Statement::InvalidDirective)))
        .count();
    assert_eq!(refused, 3);
    assert_eq!(parsed.errors.len(), refused);
}

#[test]
fn references_follow_the_options_that_write_them() {
    let parsed = parse("build --config=a --keep --config b\nbuild:x --config c --config=d\n");
    let names = |line: usize| -> Vec<String> {
        config_references(&parsed.lines[line]).into_iter().map(|r| r.name).collect()
    };
    assert_eq!(names(0), vec!["a".to_string(), "b".to_string()]);
    // Inside a named configuration only the joined spelling counts.
    assert_eq!(names(1), vec!["d".to_string()]);
}

#[test]
fn build_metadata_changes_no_answer() {
    for condition in ["<8.7.0", "<=8.7.0", "==8.7.0", "!=8.7.0", ">8.7.0", ">=8.7.0", "~8.7"] {
        let parsed = VersionCondition::parse(condition).unwrap();
        for (plain, built) in [("8.7.0", "8.7.0+abc.12"), ("8.6.9-rc1", "8.6.9-rc1+x"), ("9.0.0", "9.0.0+0")] {
            assert_eq!(parsed.matches(plain), parsed.matches(built));
        }
    }
}

#[test]
fn a_parse_keeps_tokens_and_comments_in_source_order() {
    let text = "build --a 'b c' \\\n  --d # note\n\nimport x\n";
    let parsed = parse(text);
    assert_eq!(parsed.lines.len(), 4);
    for line in &parsed.lines {
        assert!(line.range.start <= line.range.end);
        let mut last = line.range.start;
        for token in &line.tokens {
            assert!(last <= token.range.start && token.range.start < token.range.end);
            assert!(token.range.end <= line.range.end);
            last = token.range.end;
        }
        if let Some(comment) = line.comment {
            assert!(last <= comment.start && comment.start < comment.end);
            assert_eq!(comment.end, line.range.end);
        }
    }
    for pair in parsed.lines.windows(2) {
        assert!(pair[0].range.end < pair[1].range.start);
    }
    assert_eq!(parsed.lines[0].tokens.len(), 4);
    assert_eq!(parsed.lines[0].comment, Some(Span::new(24, 30)));
}

#[test]
fn decoded_spans_nest_within_their_token() {
    let parsed = parse("build --define=x=\\\ny\n");
    let token = &parsed.lines[0].options()[0];
    assert_eq!(token.text, "--define=x=y");
    assert_eq!(token.range, Span::new(6, 20));
    assert_eq!(token.decoded_span(0..12), Some(Span::new(6, 20)));
    assert_eq!(token.decoded_span(10..12), Some(Span::new(16, 20)));
    assert_eq!(token.decoded_span(11..12), Some(Span::new(19, 20)));
    assert_eq!(token.decoded_span(0..2), Some(Span::new(6, 8)));
    assert_eq!(token.decoded_span(3..3), None);
    assert_eq!(token.decoded_span(5..13), None);
}

#[test]
fn a_parse_has_one_line_more_than_its_logical_newlines() {
    assert_eq!(parse("").lines.len(), 1);
    assert_eq!(parse("build --a\\\n--b\nbuild --c\n").lines.len(), 3);
    assert_eq!(parse("build --a\r\n\r\nbuild --b").lines.len(), 3);
}
