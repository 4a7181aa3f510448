use axum::http::{HeaderMap, HeaderValue};
use registry_proxy::config::{Config, DockerConfig, Registries, RegistryMapping, RequestLimit};
use registry_proxy::docker::DockerProvider;
use registry_proxy::engine::extract_host;

fn mapping(enabled: bool, upstream: &str, auth_host: &str, username: &str) -> RegistryMapping {
    RegistryMapping {
        enabled,
        upstream: upstream.to_string(),
        auth_host: auth_host.to_string(),
        username: username.to_string(),
        password: "pw".to_string(),
    }
}

fn config(entries: Vec<(&str, RegistryMapping)>) -> Config {
    let mut registries = Registries::new();
    for (domain, m) in entries {
        registries.insert(domain.to_string(), m);
    }
    Config { docker: DockerConfig { registries }, request_limit: RequestLimit { limit_size: 0 } }
}

fn usual() -> Config {
    config(vec![
        ("docker.io", mapping(true, "registry-1.docker.io", "auth.docker.io/token", "")),
        ("ghcr.io", mapping(true, "ghcr.io", "ghcr.io/token", "")),
        ("gcr.io", mapping(true, "gcr.io", "gcr.io/v2/token", "")),
        ("quay.io", mapping(false, "quay.io", "quay.io/v2/auth", "")),
    ])
}

#[test]
fn takes_api_and_token_paths() {
    let p = DockerProvider::new();
    assert!(p.matches("v2/library/nginx"));
    assert!(p.matches("v2/"));
    assert!(p.matches("token?service=x"));
    assert!(p.matches("tokens"));
    assert!(!p.matches("v2"));
    assert!(!p.matches("/v2/"));
    assert!(!p.matches(""));
}

#[test]
fn reads_query_parameters() {
    let p = DockerProvider::new();
    assert_eq!(p.get_query_param("a=1&service=x=y&service=z", "service"), Some("x=y"));
    assert_eq!(p.get_query_param("service", "service"), None);
    assert_eq!(p.get_query_param("service=", "service"), Some(""));
    assert_eq!(p.get_query_param("", "service"), None);
    assert_eq!(p.get_query_param("=v", ""), Some("v"));
}

#[test]
fn names_the_host_of_a_path() {
    let p = DockerProvider::new();
    let c = usual();
    let host = |path: &str| p.upstream_host(path, &c);
    assert_eq!(host("v2/ghcr.io/a/b").as_deref(), Some("ghcr.io"));
    assert_eq!(host("v2/ghcr.io").as_deref(), Some("ghcr.io"));
    assert_eq!(host("v2/ghcr.iox/a").as_deref(), Some("registry-1.docker.io"));
    assert_eq!(host("v2/quay.io/a").as_deref(), Some("registry-1.docker.io"));
    assert_eq!(host("v2/library/nginx").as_deref(), Some("registry-1.docker.io"));
    assert_eq!(host("token?service=registry-1.docker.io").as_deref(), Some("auth.docker.io"));
    assert_eq!(host("token?service=gcr.io/x").as_deref(), Some("gcr.io"));
    assert_eq!(host("token?service=quay.io"), None);
    assert_eq!(host("token"), None);
    assert_eq!(host("other"), None);
    let empty = config(vec![]);
    assert_eq!(p.upstream_host("v2/library/nginx", &empty), None);
}

#[test]
fn a_disabled_docker_hub_is_still_the_fallback() {
    let p = DockerProvider::new();
    let c = config(vec![("docker.io", mapping(false, "mirror.example", "auth.example", ""))]);
    assert_eq!(p.upstream_host("v2/library/nginx", &c).as_deref(), Some("mirror.example"));
    assert_eq!(
        p.transform("v2/docker.io/nginx".to_string(), &c),
        "https://mirror.example/v2/docker.io/nginx"
    );
}

#[test]
fn transforms_api_paths() {
    let p = DockerProvider::new();
    let c = usual();
    let url = |path: &str| p.transform(path.to_string(), &c);
    assert_eq!(url("v2/ghcr.io/a/b/manifests/1"), "https://ghcr.io/v2/a/b/manifests/1");
    assert_eq!(url("v2/ghcr.io"), "https://ghcr.io/v2/");
    assert_eq!(url("v2/ghcr.io/"), "https://ghcr.io/v2/");
    assert_eq!(url("v2/library/nginx"), "https://registry-1.docker.io/v2/library/nginx");
    assert_eq!(url("v2/"), "https://registry-1.docker.io/v2/");
    let empty = config(vec![]);
    assert_eq!(
        p.transform("v2/x".to_string(), &empty),
        "https://registry-1.docker.io/v2/x"
    );
}

#[test]
fn transforms_token_paths() {
    let p = DockerProvider::new();
    let c = usual();
    let url = |path: &str| p.transform(path.to_string(), &c);
    assert_eq!(url("token"), "https://auth.docker.io/token");
    assert_eq!(url("token?"), "https://auth.docker.io/token");
    assert_eq!(url("token?a=b"), "https://auth.docker.io/token?a=b");
    assert_eq!(
        url("token?service=gcr.io&scope=repository:gcr.io/google-containers/pause:pull"),
        "https://gcr.io/v2/token?service=gcr.io&scope=repository:google-containers/pause:pull"
    );
    assert_eq!(
        url("token?service=other&scope=repository:gcr.io/a:pull"),
        "https://auth.docker.io/token?service=other&scope=repository:gcr.io/a:pull"
    );
}

#[test]
fn foreign_paths_stay() {
    let p = DockerProvider::new();
    assert_eq!(p.transform("https://github.com/x".to_string(), &usual()), "https://github.com/x");
}

#[test]
fn strips_the_domain_from_scopes() {
    let strip = DockerProvider::strip_scope_prefix;
    assert_eq!(
        strip("scope=repository:gcr.io/google-containers/pause:pull", "gcr.io"),
        "scope=repository:google-containers/pause:pull"
    );
    assert_eq!(strip("scope=repository:docker.io:pull", "docker.io"), "scope=repository:pull");
    assert_eq!(
        strip("scope=repository:gcr.iox/a:pull", "gcr.io"),
        "scope=repository:gcr.iox/a:pull"
    );
    assert_eq!(strip("scope=repository:gcr.io", "gcr.io"), "scope=repository:gcr.io");
    assert_eq!(
        strip("a=1&scope=repository:gcr.io/x:pull&&scope=repository:gcr.io/y:pull&b", "gcr.io"),
        "a=1&scope=repository:x:pull&&scope=repository:y:pull&b"
    );
    assert_eq!(strip("", "gcr.io"), "");
    assert_eq!(strip("xscope=repository:gcr.io/x", "gcr.io"), "xscope=repository:gcr.io/x");
}

#[test]
fn stripping_keeps_other_parameters() {
    let p = DockerProvider::new();
    let query = "service=gcr.io&scope=repository:gcr.io/a:pull&account=me";
    let fixed = DockerProvider::strip_scope_prefix(query, "gcr.io");
    for key in ["service", "account", "none"] {
        assert_eq!(p.get_query_param(&fixed, key), p.get_query_param(query, key));
    }
    assert_eq!(fixed.split('&').count(), query.split('&').count());
}

#[test]
fn takes_keywords_of_api_paths() {
    let p = DockerProvider::new();
    let words = |path: &str| p.extract_keywords(path);
    assert_eq!(
        words("v2/library/nginx/manifests/1"),
        Some(vec!["library".to_string(), "nginx".to_string()])
    );
    assert_eq!(words("v2///library//x"), Some(vec!["library".to_string(), "".to_string()]));
    assert_eq!(words("v2/library"), None);
    assert_eq!(words("v2/"), None);
    assert_eq!(words("token/a/b"), None);
}

#[test]
fn routing_does_not_depend_on_the_order_of_registries() {
    let p = DockerProvider::new();
    let a = config(vec![
        ("a.io", mapping(true, "up-a", "auth-a/t", "")),
        ("b.io", mapping(true, "up-b", "auth-b/t", "")),
    ]);
    let b = config(vec![
        ("b.io", mapping(true, "up-b", "auth-b/t", "")),
        ("a.io", mapping(true, "up-a", "auth-a/t", "")),
    ]);
    let paths = ["v2/a.io/x", "v2/b.io/x", "v2/c.io/x", "token?service=up-b", "token?service=up-a"];
    for path in paths {
        assert_eq!(p.upstream_host(path, &a), p.upstream_host(path, &b));
        assert_eq!(p.transform(path.to_string(), &a), p.transform(path.to_string(), &b));
    }
}

#[test]
fn urls_are_at_the_named_host() {
    let p = DockerProvider::new();
    let c = usual();
    for path in ["v2/ghcr.io/a", "v2/x/y", "token?service=ghcr.io", "token?service=gcr.io"] {
        let url = p.transform(path.to_string(), &c);
        assert!(url.starts_with("https://"));
        assert_eq!(extract_host(&url).map(|h| h.to_string()), p.upstream_host(path, &c));
    }
}

fn challenged(value: &str) -> HeaderMap {
    let mut headers = HeaderMap::new();
    headers.insert("www-authenticate", HeaderValue::from_str(value).unwrap());
    headers.insert("x-other", HeaderValue::from_static("https://auth.docker.io/token"));
    headers
}

#[test]
fn challenges_lead_to_the_proxy() {
    let p = DockerProvider::new();
    let mut headers = challenged(
        "Bearer realm=\"https://auth.docker.io/token\",service=\"registry.docker.io\"",
    );
    p.handle_response(&mut headers, &usual());
    assert_eq!(
        headers["www-authenticate"],
        "Bearer realm=\"/token\",service=\"registry.docker.io\""
    );
    assert_eq!(headers["x-other"], "https://auth.docker.io/token");
}

#[test]
fn challenges_of_the_registry_itself_stay_without_an_account() {
    let p = DockerProvider::new();
    let text = "Bearer realm=\"https://ghcr.io/token\",service=\"ghcr.io\"";
    let mut headers = challenged(text);
    p.handle_response(&mut headers, &usual());
    assert_eq!(headers["www-authenticate"], text);

    let c = config(vec![("ghcr.io", mapping(true, "ghcr.io", "ghcr.io/token", "me"))]);
    p.handle_response(&mut headers, &c);
    assert_eq!(headers["www-authenticate"], "Bearer realm=\"/token\",service=\"ghcr.io\"");
}

#[test]
fn challenges_of_unknown_or_disabled_registries_stay() {
    let p = DockerProvider::new();
    let text = "Bearer realm=\"https://auth.docker.io/token\"";
    let mut headers = challenged(text);
    p.handle_response(&mut headers, &config(vec![]));
    assert_eq!(headers["www-authenticate"], text);
    let c = config(vec![("docker.io", mapping(false, "r", "auth.docker.io/token", "me"))]);
    p.handle_response(&mut headers, &c);
    assert_eq!(headers["www-authenticate"], text);
}

#[test]
fn only_the_first_readable_challenge_changes() {
    let p = DockerProvider::new();
    let mut headers = HeaderMap::new();
    headers.append("www-authenticate", HeaderValue::from_static("https://auth.docker.io/token"));
    headers.append("www-authenticate", HeaderValue::from_static("https://auth.docker.io/token"));
    p.handle_response(&mut headers, &usual());
    let values: Vec<&HeaderValue> = headers.get_all("www-authenticate").iter().collect();
    assert_eq!(values, vec!["/token", "https://auth.docker.io/token"]);

    let mut opaque = HeaderMap::new();
    let value = HeaderValue::from_bytes(b"https://auth.docker.io/token\xff").unwrap();
    opaque.insert("www-authenticate", value.clone());
    p.handle_response(&mut opaque, &usual());
    assert_eq!(opaque["www-authenticate"], value);

    let mut none = HeaderMap::new();
    p.handle_response(&mut none, &usual());
    assert!(none.is_empty());
}

#[test]
fn registries_keep_what_they_are_given() {
    let mut r = Registries::new();
    assert_eq!(r.len(), 0);
    assert!(r.get("a").is_none());
    r.insert("a".to_string(), mapping(true, "one", "", ""));
    r.insert("b".to_string(), mapping(true, "two", "", ""));
    r.insert("a".to_string(), mapping(false, "three", "", ""));
    assert_eq!(r.len(), 2);
    assert_eq!(r.domain(0), "a");
    assert_eq!(r.mapping(0).upstream, "three");
    assert_eq!(r.get("a").unwrap().upstream, "three");
    assert_eq!(r.get("b").unwrap().upstream, "two");
    assert!(r.get("").is_none());
}
