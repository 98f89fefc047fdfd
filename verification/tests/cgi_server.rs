use stadhouder::cgi_server::{
    build_response, build_response_from_cgi_output, candidates, cgi_environment,
    header_to_env_name, malformed_cgi_response, no_script, resolve_cgi_script, script_failed,
    script_not_started, CgiRequest, CgiResponse, Probe, Script,
};
use stadhouder::layout::Platform;

/// What a request finds where these files are there.
fn resolve_on(
    platform: Platform,
    cgi_bin: &str,
    rest: &str,
    files: &[(&str, &str, bool)],
) -> Option<Script> {
    let probes: Vec<Probe> = candidates(platform, cgi_bin, rest)
        .iter()
        .map(|c| match files.iter().find(|(path, _, _)| c.path == *path) {
            Some((_, real, is_file)) => {
                Probe::Something { path: real.to_string(), is_file: *is_file }
            }
            None => Probe::Nothing,
        })
        .collect();
    resolve_cgi_script(platform, cgi_bin, rest, &probes)
}

fn resolve(rest: &str, files: &[(&str, &str, bool)]) -> Option<Script> {
    resolve_on(Platform::Unix, "/srv/cgi-bin", rest, files)
}

fn paths(platform: Platform, cgi_bin: &str, rest: &str) -> Vec<String> {
    candidates(platform, cgi_bin, rest).into_iter().map(|c| c.path).collect()
}

#[test]
fn longer_names_are_tried_before_shorter_ones() {
    assert_eq!(
        paths(Platform::Unix, "/b", "sub//x/"),
        vec![
            "/b/sub/x", "/b/sub/x.exe", "/b/sub/x.cmd", "/b/sub/x.bat", "/b/sub/x.com", "/b/sub",
            "/b/sub.exe", "/b/sub.cmd", "/b/sub.bat", "/b/sub.com",
        ]
    );
    assert!(candidates(Platform::Unix, "/b", "").is_empty());
    assert!(candidates(Platform::Unix, "/b", "///").is_empty());
}

#[test]
fn a_program_is_found_with_what_follows_it() {
    let real = "/srv/cgi-bin/sub/script";
    let script = resolve("sub/script/extra/more", &[(real, real, true)]).unwrap();
    assert_eq!(script.path, real);
    assert_eq!(script.script_name, "sub/script");
    assert_eq!(script.path_info, "/extra/more");

    let exe = "/srv/cgi-bin/envtest.exe";
    let script = resolve("envtest", &[(exe, exe, true)]).unwrap();
    assert_eq!(script.path, exe);
    assert_eq!(script.script_name, "envtest");
    assert_eq!(script.path_info, "");
}

#[test]
fn folders_and_files_elsewhere_are_passed_over() {
    let dir = "/srv/cgi-bin/sub";
    assert!(resolve("sub", &[(dir, dir, false)]).is_none());
    assert!(resolve("x", &[("/srv/cgi-bin/x", "/srv/other/x", true)]).is_none());
    assert!(resolve("x", &[("/srv/cgi-bin/x", "/srv/cgi-bin-not/x", true)]).is_none());
    assert!(resolve("../secret", &[("/srv/cgi-bin/../secret", "/srv/secret", true)]).is_none());
    let script = resolve(
        "x",
        &[("/srv/cgi-bin/x", "/etc/x", true), ("/srv/cgi-bin/x.bat", "/srv/cgi-bin/x.bat", true)],
    );
    assert_eq!(script.unwrap().path, "/srv/cgi-bin/x.bat");
    assert!(resolve("", &[]).is_none());
}

#[test]
fn a_name_with_a_backslash_is_no_way_out() {
    let odd = "/srv/cgi-bin/a\\b";
    assert_eq!(resolve("a\\b", &[(odd, odd, true)]).unwrap().path, odd);
    assert!(resolve("x", &[("/srv/cgi-bin/x", "/srv\\cgi-bin/x", true)]).is_none());
    assert!(resolve("x", &[("/srv/cgi-bin/x", "/srv/cgi-bin\\x", true)]).is_none());
}

#[test]
fn programs_are_found_on_windows_too() {
    let cgi_bin = r"\\?\C:\files\cgi-bin";
    assert_eq!(
        paths(Platform::Windows, cgi_bin, "sub/x")[..2],
        [r"\\?\C:\files\cgi-bin\sub\x", r"\\?\C:\files\cgi-bin\sub\x.exe"]
    );
    assert_eq!(paths(Platform::Windows, cgi_bin, "./sub/../x")[0], format!(r"{cgi_bin}\x"));
    assert_eq!(paths(Platform::Windows, cgi_bin, "../x.bat")[0], r"\\?\C:\files\x.bat");
    assert_eq!(paths(Platform::Windows, cgi_bin, "../../../x")[0], r"\\?\C:\x");
    assert_eq!(paths(Platform::Windows, cgi_bin, r"sub\..\x")[0], format!(r"{cgi_bin}\x"));
    assert_eq!(paths(Platform::Windows, cgi_bin, r"C:\x")[0], r"C:\x");
    assert_eq!(paths(Platform::Windows, cgi_bin, r"\x/y")[0], r"\\?\C:\x\y");
    let share = r"\\?\UNC\server\share\cgi-bin";
    assert_eq!(paths(Platform::Windows, share, "../../x")[0], r"\\?\UNC\server\share\x");
    let exe = r"\\?\C:\files\cgi-bin\sub\envtest.exe";
    let find = |rest, real| resolve_on(Platform::Windows, cgi_bin, rest, &[(exe, real, true)]);
    let script = find("sub/envtest/more", exe).unwrap();
    assert_eq!(script.path, exe);
    assert_eq!(script.script_name, "sub/envtest");
    assert_eq!(script.path_info, "/more");
    assert!(find("sub/envtest", r"\\?\C:\files\cgi-bin-not\envtest.exe").is_none());
    assert!(find("sub/envtest", r"\\?\C:\secret\envtest.exe").is_none());
    assert!(find("sub/envtest", r"\\?\C:\files/cgi-bin/envtest.exe").is_none());
}

#[test]
fn a_header_goes_into_a_variable_in_capitals() {
    assert_eq!(header_to_env_name("user-agent"), "HTTP_USER_AGENT");
    assert_eq!(header_to_env_name("x_y9"), "HTTP_X_Y9");
    assert_eq!(header_to_env_name(""), "HTTP_");
    assert_eq!(header_to_env_name("stra\u{df}e"), "HTTP_STRASSE");
}

#[test]
fn a_program_is_told_of_its_request() {
    let request = CgiRequest {
        port: 8080,
        method: "POST".to_string(),
        script_name: "a/b".to_string(),
        path_info: "/c".to_string(),
        uri: "/cgi-bin/a/b/c?q=1".to_string(),
        query: Some("q=1".to_string()),
        remote_addr: "127.0.0.1".to_string(),
        document_root: "/srv".to_string(),
        content_length: 12,
        headers: vec![
            ("content-type".to_string(), Some("text/plain".to_string())),
            ("content-length".to_string(), Some("12".to_string())),
            ("cookie".to_string(), Some("s=1".to_string())),
            ("x-odd".to_string(), None),
        ],
    };
    let vars: Vec<String> =
        cgi_environment(&request).into_iter().map(|(k, v)| format!("{k}={v}")).collect();
    assert_eq!(
        vars,
        vec![
            "GATEWAY_INTERFACE=CGI/1.1",
            "SERVER_PROTOCOL=HTTP/1.1",
            "SERVER_SOFTWARE=fileserver-cgi-dev/0.1",
            "SERVER_NAME=localhost",
            "SERVER_PORT=8080",
            "REQUEST_METHOD=POST",
            "SCRIPT_NAME=/cgi-bin/a/b",
            "PATH_INFO=/c",
            "REQUEST_URI=/cgi-bin/a/b/c?q=1",
            "QUERY_STRING=q=1",
            "REMOTE_ADDR=127.0.0.1",
            "DOCUMENT_ROOT=/srv",
            "CONTENT_LENGTH=12",
            "CONTENT_TYPE=text/plain",
            "HTTP_COOKIE=s=1",
        ]
    );
    let bare = CgiRequest { query: None, headers: Vec::new(), ..request };
    let vars = cgi_environment(&bare);
    assert_eq!(vars[9], ("QUERY_STRING".to_string(), String::new()));
    assert_eq!(vars[13], ("CONTENT_TYPE".to_string(), String::new()));
    assert_eq!(vars.len(), 14);
}

fn body(response: &CgiResponse) -> String {
    String::from_utf8(response.body.clone()).unwrap()
}

fn headers(response: &CgiResponse) -> Vec<String> {
    response.headers.iter().map(|(k, v)| format!("{k}: {v}")).collect()
}

#[test]
fn output_is_a_header_block_and_a_body() {
    let r = build_response_from_cgi_output(
        b"Status: 404 Not Found\r\nContent-Type: text/html\r\nX-A:b:c \r\n\r\nhi\n\nthere",
    );
    assert_eq!(r.status, 404);
    assert_eq!(headers(&r), vec!["Content-Type: text/html", "X-A: b:c"]);
    assert_eq!(body(&r), "hi\n\nthere");
    let r = build_response_from_cgi_output(b"A: 1\n\n\xff\x00");
    assert_eq!(r.status, 200);
    assert_eq!(headers(&r), vec!["A: 1"]);
    assert_eq!(r.body, vec![0xff, 0]);
    let r = build_response_from_cgi_output(b"\n\nx");
    assert_eq!((r.status, r.headers.len(), body(&r)), (200, 0, "x".to_string()));
}

#[test]
fn a_blank_line_with_carriage_returns_counts_first() {
    let r = build_response_from_cgi_output(b"A: 1\n\nB: 2\r\n\r\nrest");
    assert_eq!(headers(&r), vec!["A: 1", "B: 2"]);
    assert_eq!(body(&r), "rest");
}

#[test]
fn a_status_must_be_one() {
    let status = |line: &str| build_response(line, Vec::new()).status;
    assert_eq!(status("status: 201"), 201);
    assert_eq!(status("STATUS:+301 Moved"), 301);
    assert_eq!(status("Status: 99"), 200);
    assert_eq!(status("Status: 1000"), 200);
    assert_eq!(status("Status: 999"), 999);
    assert_eq!(status("Status: many"), 200);
    assert_eq!(status("Status:"), 200);
    assert_eq!(status("Status: 404\nStatus: x"), 404);
    assert_eq!(status("Status: 404\nStatus: 70000"), 404);
    assert_eq!(status("Status: 404\nStatus: 7"), 200);
}

#[test]
fn malformed_output_is_answered_with_500() {
    let tail = "\n(strict parsing, matching Apache mod_cgi - a real host would answer its generic 500 page here)\n";
    let r = build_response_from_cgi_output(b"no headers at all\n");
    assert_eq!(r.status, 500);
    assert_eq!(headers(&r), vec!["content-type: text/plain"]);
    assert_eq!(
        body(&r),
        format!("500 malformed CGI output: no header/body separator in the output{tail}")
    );
    let r = build_response_from_cgi_output(b"A: 1\ndebug \"x\"\nB\n\nbody");
    assert_eq!(r.status, 500);
    assert_eq!(
        body(&r),
        format!(
            "500 malformed CGI output: non-header line in the header block: \"debug \\\"x\\\"\"{tail}"
        )
    );
    assert_eq!(
        body(&malformed_cgi_response("why")),
        format!("500 malformed CGI output: why{tail}")
    );
}

#[test]
fn a_header_that_cannot_be_one_is_answered_with_500() {
    let reason = |line: &str| {
        let r = build_response(line, b"body".to_vec());
        assert_eq!(r.status, 500);
        assert_eq!(headers(&r), vec!["content-type: text/plain"]);
        body(&r).lines().next().unwrap().to_string()
    };
    let invalid = "500 malformed CGI output: invalid header in the header block: ";
    assert_eq!(reason("A: 1\ntwo words: 2"), format!("{invalid}\"two words\""));
    assert_eq!(reason(": no name"), format!("{invalid}\"\""));
    assert_eq!(reason("caf\u{e9}: 1"), format!("{invalid}\"caf\u{e9}\""));
    assert_eq!(reason("A: b\u{1}c"), format!("{invalid}\"A\""));
    assert_eq!(reason("A: b\u{7f}c"), format!("{invalid}\"A\""));
    let long = "x".repeat(65536);
    assert_eq!(reason(&format!("{long}: 1")), format!("{invalid}\"{long}\""));
    // A line without a colon is what is complained of first.
    assert!(reason("two words: 2\nplain").contains("non-header line"));

    let r = build_response("!#$%&'*+-.^_`|~09azAZ: a\tb\u{e9}\u{80}", Vec::new());
    assert_eq!(r.status, 200);
    assert_eq!(headers(&r), vec!["!#$%&'*+-.^_`|~09azAZ: a\tb\u{e9}\u{80}"]);
    let r = build_response(&format!("{}: 1", "x".repeat(65535)), Vec::new());
    assert_eq!(r.status, 200);
}

#[test]
fn bytes_that_are_not_utf8_are_replaced_in_headers() {
    let r = build_response_from_cgi_output(b"A: \xffb\n\n");
    assert_eq!(headers(&r), vec!["A: \u{fffd}b"]);
}

#[test]
fn what_cannot_be_run_is_answered() {
    assert_eq!(no_script().status, 404);
    assert_eq!(body(&no_script()), "404 Not Found (no matching CGI script)");
    let r = script_not_started("/a/b", "denied");
    assert_eq!((r.status, body(&r)), (500, "failed to run CGI script \"/a/b\": denied".to_string()));
    let r = script_failed("gone");
    assert_eq!((r.status, body(&r)), (500, "CGI script execution failed: gone".to_string()));
}
