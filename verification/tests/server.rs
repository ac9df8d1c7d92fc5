use oxide::server::{
    build_args, crate_name, file_path, file_response_head, guess_mime, inject_reload,
    injects_reload, is_reload_poll, kilobytes, not_found_response, project_manifest, project_page,
    reload_response, replace_text, request_path,
};

#[test]
fn request_path_is_second_word_of_first_line() {
    assert_eq!(request_path("GET /app.js HTTP/1.1\r\nHost: localhost\r\n\r\n"), "/app.js");
    assert_eq!(request_path("GET   /x\tHTTP/1.1"), "/x");
    assert_eq!(request_path("GET /\r\n"), "/");
}

#[test]
fn request_path_defaults_to_root() {
    assert_eq!(request_path(""), "/");
    assert_eq!(request_path("GET\r\n/not-this HTTP/1.1"), "/");
    assert_eq!(request_path("\nGET /x HTTP/1.1"), "/");
}

#[test]
fn file_for_request_path() {
    assert_eq!(file_path("/"), "index.html");
    assert_eq!(file_path("/pkg/app.js"), "pkg/app.js");
    assert_eq!(file_path("//style.css"), "style.css");
    assert_eq!(file_path("plain"), "plain");
    assert_eq!(file_path(""), "");
}

#[test]
fn mime_by_extension() {
    assert_eq!(guess_mime("index.html"), "text/html");
    assert_eq!(guess_mime("pkg/app.js"), "application/javascript");
    assert_eq!(guess_mime("pkg/app_bg.wasm"), "application/wasm");
    assert_eq!(guess_mime("a.css"), "text/css");
    assert_eq!(guess_mime("a.json"), "application/json");
    assert_eq!(guess_mime("a.png"), "image/png");
    assert_eq!(guess_mime("a.svg"), "image/svg+xml");
    assert_eq!(guess_mime("favicon.ico"), "image/x-icon");
    assert_eq!(guess_mime("archive.tar.gz"), "application/octet-stream");
    assert_eq!(guess_mime("INDEX.HTML"), "application/octet-stream");
    assert_eq!(guess_mime("html"), "text/html");
    assert_eq!(guess_mime("README"), "application/octet-stream");
}

#[test]
fn reload_poll_path() {
    assert!(is_reload_poll("/__oxide_reload"));
    assert!(!is_reload_poll("/__oxide_reload/"));
    assert!(!is_reload_poll("/"));
}

#[test]
fn reload_response_carries_version() {
    assert_eq!(
        reload_response(12),
        "HTTP/1.1 200 OK\r\nContent-Type: text/plain\r\nAccess-Control-Allow-Origin: *\r\nContent-Length: 2\r\n\r\n12"
    );
    assert_eq!(
        reload_response(0),
        "HTTP/1.1 200 OK\r\nContent-Type: text/plain\r\nAccess-Control-Allow-Origin: *\r\nContent-Length: 1\r\n\r\n0"
    );
}

#[test]
fn file_response_header() {
    assert_eq!(
        file_response_head("text/css", 1234),
        "HTTP/1.1 200 OK\r\nContent-Type: text/css\r\nContent-Length: 1234\r\nCache-Control: no-cache\r\n\r\n"
    );
}

#[test]
fn not_found_response_text() {
    assert_eq!(
        not_found_response(),
        "HTTP/1.1 404 Not Found\r\nContent-Type: text/plain\r\nContent-Length: 13\r\n\r\n404 Not Found"
    );
}

#[test]
fn reload_script_goes_before_body_end() {
    assert!(injects_reload("text/html", 1));
    assert!(!injects_reload("text/html", 0));
    assert!(!injects_reload("text/css", 3));
    assert_eq!(
        inject_reload("<html><body>x</body></html>", "<script>s</script>"),
        "<html><body>x<script>s</script></body></html>"
    );
    assert_eq!(inject_reload("<p>no body</p>", "<script>s</script>"), "<p>no body</p>");
}

#[test]
fn replace_scans_from_the_left() {
    assert_eq!(replace_text("aaa", "aa", "b"), "ba");
    assert_eq!(replace_text("a-b-c", "-", "+"), "a+b+c");
    assert_eq!(replace_text("abc", "x", "y"), "abc");
    assert_eq!(replace_text("", "x", "y"), "");
}

#[test]
fn new_project_files() {
    assert_eq!(crate_name("my-cool-app"), "my_cool_app");
    assert_eq!(project_manifest("name = \"{{name}}\"", "my-app"), "name = \"my-app\"");
    assert_eq!(
        project_page("<title>{{name}}</title><script src=\"./pkg/{{crate_name}}.js\">", "my-app"),
        "<title>my-app</title><script src=\"./pkg/my_app.js\">"
    );
}

#[test]
fn build_arguments() {
    assert_eq!(build_args(true), vec!["build", "--target", "web", "--dev"]);
    assert_eq!(build_args(false), vec!["build", "--target", "web", "--release"]);
}

#[test]
fn bundle_size_in_kilobytes() {
    assert_eq!(kilobytes(2048), 2);
    assert_eq!(kilobytes(1023), 0);
}

#[test]
fn replace_with_empty_pattern_inserts_at_each_boundary() {
    assert_eq!(replace_text("abc", "", "-"), "-a-b-c-");
    assert_eq!(replace_text("", "", "x"), "x");
}
