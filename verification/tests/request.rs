use stadhouder::request::{build_url, same_host_url, ServerEnv};

#[test]
fn builds_http_url_by_default() {
    assert_eq!(
        build_url("localhost", "8080", false, "/cgi-bin/keyscarf/api_session_check"),
        "http://localhost:8080/cgi-bin/keyscarf/api_session_check"
    );
}

#[test]
fn builds_https_url_when_flagged() {
    assert_eq!(
        build_url("example.com", "443", true, "/cgi-bin/x"),
        "https://example.com:443/cgi-bin/x"
    );
}

fn env(name: Option<&str>, port: Option<&str>, https: Option<&str>) -> ServerEnv {
    ServerEnv {
        server_name: name.map(str::to_string),
        server_port: port.map(str::to_string),
        https: https.map(str::to_string),
    }
}

#[test]
fn the_request_itself_names_its_host() {
    assert_eq!(
        same_host_url(&env(Some("h"), Some("80"), None), "/p").unwrap(),
        "http://h:80/p"
    );
    assert_eq!(
        same_host_url(&env(Some("h"), Some("443"), Some("on")), "/p").unwrap(),
        "https://h:443/p"
    );
    assert_eq!(
        same_host_url(&env(Some("h"), Some("80"), Some("ON")), "/p").unwrap(),
        "http://h:80/p"
    );
    assert_eq!(
        same_host_url(&env(None, None, None), "/p").unwrap_err(),
        "SERVER_NAME env var not set"
    );
    assert_eq!(
        same_host_url(&env(Some("h"), None, None), "/p").unwrap_err(),
        "SERVER_PORT env var not set"
    );
}
