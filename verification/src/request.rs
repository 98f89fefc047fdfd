//! What the environment of a CGI request says of the host that serves it.
use crate::text;
use crate::text::{cat, cat3, same_text};
use vstd::prelude::*;

verus! {

/// The variables of a CGI request's environment that name its host, where they
/// are set.
pub struct ServerEnv {
    pub server_name: Option<String>,
    pub server_port: Option<String>,
    pub https: Option<String>,
}

/// The URL of a path on a host.
pub open spec fn url(host: Seq<char>, port: Seq<char>, https: bool, path: Seq<char>) -> Seq<char> {
    let scheme = if https {
        "https"@
    } else {
        "http"@
    };
    scheme + "://"@ + host + ":"@ + port + path
}

/// The URL of a path on a host.
pub fn build_url(server_name: &str, server_port: &str, https: bool, path: &str) -> (r: String)
    ensures
        r@ == url(server_name@, server_port@, https, path@),
{
    let scheme = if https {
        "https"
    } else {
        "http"
    };
    let host = cat3(scheme, "://", server_name);
    cat3(cat(host.as_str(), ":").as_str(), server_port, path)
}

/// The URL of a path on the host that serves the request, or what the
/// environment lacks. The scheme is `https` only where HTTPS is `on`.
pub open spec fn same_host(env: ServerEnv, path: Seq<char>) -> Result<Seq<char>, Seq<char>> {
    match (env.server_name, env.server_port) {
        (None, _) => Err("SERVER_NAME env var not set"@),
        (_, None) => Err("SERVER_PORT env var not set"@),
        (Some(name), Some(port)) => Ok(
            url(name@, port@, text::opt_string(env.https) == Some("on"@), path),
        ),
    }
}

/// The URL of a path on the host that serves the request.
pub fn same_host_url(env: &ServerEnv, path: &str) -> (r: Result<String, String>)
    ensures
        text::answer(r) == same_host(*env, path@),
{
    let name = match &env.server_name {
        Some(name) => name,
        None => {
            return Err("SERVER_NAME env var not set".to_owned());
        },
    };
    let port = match &env.server_port {
        Some(port) => port,
        None => {
            return Err("SERVER_PORT env var not set".to_owned());
        },
    };
    let https = match &env.https {
        Some(v) => same_text(v.as_str(), "on"),
        None => false,
    };
    Ok(build_url(name.as_str(), port.as_str(), https, path))
}

/// A path is asked for on the very host and port that serve the request, by
/// `https` exactly where the request came so. Without a host or a port there is
/// no URL, and the answer names what is missing.
pub proof fn the_same_host_is_asked(env: ServerEnv, path: Seq<char>)
    ensures
        same_host(env, path) is Ok <==> env.server_name is Some && env.server_port is Some,
        env.server_name is None ==> same_host(env, path) == Err::<Seq<char>, Seq<char>>(
            "SERVER_NAME env var not set"@,
        ),
        env.server_name is Some && env.server_port is None ==> same_host(env, path) == Err::<
            Seq<char>,
            Seq<char>,
        >("SERVER_PORT env var not set"@),
        env.server_name matches Some(name) ==> env.server_port matches Some(port) ==> {
            let secure = env.https is Some && env.https->Some_0@ == "on"@;
            let start = if secure {
                "https://"@
            } else {
                "http://"@
            };
            same_host(env, path) == Ok::<Seq<char>, Seq<char>>(
                start + name@ + ":"@ + port@ + path,
            )
        },
{
    reveal_strlit("https://");
    reveal_strlit("http://");
    reveal_strlit("https");
    reveal_strlit("http");
    reveal_strlit("://");
    assert("https"@ + "://"@ == "https://"@);
    assert("http"@ + "://"@ == "http://"@);
}

} // verus!
