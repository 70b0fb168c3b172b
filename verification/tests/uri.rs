use bazel_language_server::uri::file_uri;

#[test]
fn cursor_file_uri_escapes_what_a_uri_cannot_hold() {
    let cases = [
        ("/ws/lib/BUILD.bazel", "file:///ws/lib/BUILD.bazel"),
        ("/ws with space/BUILD", "file:///ws%20with%20space/BUILD"),
        ("/ws/a#b?c/BUILD", "file:///ws/a%23b%3Fc/BUILD"),
        ("/ws/100%/BUILD", "file:///ws/100%25/BUILD"),
    ];
    for (path, expected) in cases {
        let uri = file_uri(path).expect("a parseable uri");
        assert_eq!(uri.as_str(), expected, "encoding {path}");
    }
}
