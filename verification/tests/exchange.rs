use axum::http::{HeaderMap, HeaderName, HeaderValue};
use registry_proxy::access_log::{is_logged, log_level, log_line, user_agent, LogLevel};
use registry_proxy::config::{Config, DockerConfig, Registries, RequestLimit};
use registry_proxy::engine::ProviderKind;
use registry_proxy::exchange::{
    follow, open, Answering, Asked, Continuation, Direction, Opening, Reception,
};

fn headers(lines: &[(&'static str, &str)]) -> HeaderMap {
    let mut map = HeaderMap::new();
    for (name, value) in lines {
        map.append(*name, HeaderValue::from_str(value).unwrap());
    }
    map
}

fn config(limit_size: i64) -> Config {
    Config {
        docker: DockerConfig { registries: Registries::new() },
        request_limit: RequestLimit { limit_size },
    }
}

fn ask(depth: u8, provider: Option<ProviderKind>, request: HeaderMap) -> Asked {
    match open(depth, provider, request, "https://x/", &None, &config(1)) {
        Opening::Ask(asked, _) => asked,
        Opening::Reply(_) => panic!("refused"),
    }
}

fn adapt(asked: Asked, answer: HeaderMap) -> Continuation {
    match asked.received(&answer, &config(1)) {
        Reception::Adapt(adapting, headers) => adapting.adapted(headers),
        _ => panic!("not adapted"),
    }
}

fn answering(continuation: Continuation) -> Answering {
    match continuation {
        Continuation::Answer(answering) => answering,
        Continuation::Redirect(..) => panic!("redirected"),
    }
}

#[test]
fn asks_with_the_forwarded_headers() {
    let request = headers(&[("host", "proxy"), ("accept", "a")]);
    match open(0, None, request, "https://x/", &None, &config(1)) {
        Opening::Ask(_, upstream) => {
            assert_eq!(upstream.lines.len(), 1);
            assert_eq!(upstream.lines[0].0, "accept");
            assert_eq!(upstream.lines[0].1, "a");
            assert!(upstream.credentials.is_none());
        }
        Opening::Reply(_) => panic!("refused"),
    }
}

#[test]
fn replies_at_once_to_too_many_redirects() {
    match open(10, None, HeaderMap::new(), "https://x/", &None, &config(1)) {
        Opening::Reply(reply) => assert_eq!(reply.status, 508),
        Opening::Ask(..) => panic!("admitted"),
    }
}

#[test]
fn redirects_are_followed_without_the_clients_headers() {
    match follow(9, Some(ProviderKind::Explicit), "https://x/", &config(1)) {
        Opening::Ask(_, upstream) => {
            assert!(upstream.lines.is_empty());
            assert!(upstream.credentials.is_none());
        }
        Opening::Reply(_) => panic!("refused"),
    }
    match follow(10, None, "https://x/", &config(1)) {
        Opening::Reply(reply) => assert_eq!(reply.status, 508),
        Opening::Ask(..) => panic!("admitted"),
    }
}

/// How many requests a chain of redirects makes that begins at a depth.
fn requests_from(first: u8) -> usize {
    let mut depth: u8 = first;
    let mut asked_count = 0;
    loop {
        match follow(depth, None, "https://x/", &config(1)) {
            Opening::Reply(reply) => {
                assert_eq!(reply.status, 508);
                return asked_count;
            }
            Opening::Ask(asked, _) => {
                asked_count += 1;
                match adapt(asked, headers(&[("location", "https://x/")])) {
                    Continuation::Redirect(redirecting, _) => {
                        match redirecting.claimed(false, false) {
                            Direction::Follow { depth: next, .. } => depth = next,
                            _ => panic!("not followed"),
                        }
                    }
                    Continuation::Answer(_) => panic!("answered"),
                }
            }
        }
    }
}

#[test]
fn a_chain_of_redirects_ends() {
    assert_eq!(requests_from(0), 10);
    assert_eq!(requests_from(7), 3);
    assert_eq!(requests_from(10), 0);
    assert_eq!(requests_from(255), 0);
}

#[test]
fn replies_in_place_of_failures_and_large_answers() {
    let reply = ask(0, None, HeaderMap::new()).failed("gone");
    assert_eq!((reply.status, reply.body.as_str()), (500, "server error gone"));

    let large = headers(&[("content-length", "1048577")]);
    match ask(0, None, HeaderMap::new()).received(&large, &config(1)) {
        Reception::Reply(reply) => {
            assert_eq!((reply.status, reply.body.as_str()), (413, "File too large."));
        }
        _ => panic!("passed"),
    }
    match ask(0, None, HeaderMap::new()).received(&large, &config(i64::MAX)) {
        Reception::LimitOverflow => {}
        _ => panic!("no overflow"),
    }
}

#[test]
fn answers_are_cleaned_and_completed() {
    let asked = ask(0, None, headers(&[("host", "proxy")]));
    let answer = headers(&[
        ("www-authenticate", "Bearer realm=\"/token\""),
        ("content-security-policy", "x"),
        ("set-cookie", "a"),
        ("set-cookie", "b"),
    ]);
    let passed = answering(adapt(asked, answer));
    assert!(!passed.wants_body());
    let expected = headers(&[
        ("www-authenticate", "Bearer realm=\"https://proxy/token\""),
        ("set-cookie", "a"),
    ]);
    assert_eq!(passed.unchanged(), expected);
}

#[test]
fn pages_of_providers_are_rewritten() {
    let page = headers(&[("content-type", "text/html")]);
    let without = answering(adapt(ask(0, None, HeaderMap::new()), page.clone()));
    assert!(!without.wants_body());
    let web = Some(ProviderKind::Web);
    let with = answering(adapt(ask(0, web, HeaderMap::new()), page.clone()));
    assert!(with.wants_body());
    let rewritten = with.rewritten(42).unwrap();
    assert_eq!(rewritten, headers(&[("content-type", "text/html"), ("content-length", "42")]));
    let reply = answering(adapt(ask(0, web, HeaderMap::new()), page)).unreadable("cut");
    assert_eq!((reply.status, reply.body.as_str()), (500, "read error cut"));
}

#[test]
fn claimed_redirects_of_browsing_stay_in_the_proxy() {
    let asked = ask(2, Some(ProviderKind::Web), HeaderMap::new());
    let answer = headers(&[("location", "https://x/y"), ("content-type", "text/html")]);
    match adapt(asked, answer) {
        Continuation::Redirect(redirecting, location) => {
            assert_eq!(location, "https://x/y");
            match redirecting.claimed(false, true) {
                Direction::Answer(answering) => {
                    assert!(answering.wants_body());
                    assert_eq!(answering.unchanged()["location"], "/https://x/y");
                }
                _ => panic!("not answered"),
            }
        }
        Continuation::Answer(_) => panic!("not redirected"),
    }
}

#[test]
fn headers_without_room_are_reported() {
    let mut full = headers(&[("location", "https://x/y"), ("location", "z")]);
    for i in 0..24575 {
        let name = HeaderName::from_bytes(format!("x{}", i).as_bytes()).unwrap();
        full.insert(name, HeaderValue::from_static("v"));
    }
    let web = Some(ProviderKind::Web);
    let adapting = match ask(0, web, HeaderMap::new()).received(&full, &config(1)) {
        Reception::Adapt(adapting, _) => adapting,
        _ => panic!("not adapted"),
    };
    match adapting.adapted(full.clone()) {
        Continuation::Redirect(redirecting, _) => match redirecting.claimed(true, false) {
            Direction::HeaderOverflow => {}
            _ => panic!("found room"),
        },
        Continuation::Answer(_) => panic!("not redirected"),
    }
    full.remove("location");
    full.insert("content-type", HeaderValue::from_static("text/html"));
    let page = answering(adapt(ask(0, web, HeaderMap::new()), full));
    assert!(page.wants_body());
    assert!(page.rewritten(7).is_err());
}

#[test]
fn relative_redirects_of_explicit_requests_are_answered() {
    let asked = ask(2, Some(ProviderKind::Explicit), HeaderMap::new());
    match adapt(asked, headers(&[("location", "/y")])) {
        Continuation::Redirect(redirecting, _) => match redirecting.claimed(true, true) {
            Direction::Answer(answering) => {
                assert_eq!(answering.unchanged(), headers(&[("location", "/y")]));
            }
            _ => panic!("not answered"),
        },
        Continuation::Answer(_) => panic!("not redirected"),
    }
}

#[test]
fn logs_all_but_the_start_page() {
    assert!(!is_logged("/"));
    assert!(is_logged("/v2/"));
    assert!(is_logged(""));
}

#[test]
fn logs_success_quietly() {
    assert_eq!(log_level(200), LogLevel::Debug);
    assert_eq!(log_level(201), LogLevel::Info);
    assert_eq!(log_level(404), LogLevel::Info);
}

#[test]
fn logs_who_asked_for_what() {
    assert_eq!(user_agent(&headers(&[("user-agent", "docker/27")])), "docker/27");
    assert_eq!(user_agent(&HeaderMap::new()), "unknown");
    let mut opaque = HeaderMap::new();
    opaque.insert("user-agent", HeaderValue::from_bytes(b"\xff").unwrap());
    assert_eq!(user_agent(&opaque), "unknown");
    assert_eq!(
        log_line(404, "1.5ms", "GET", "/v2/", "docker/27"),
        "404 | 1.5ms | GET | /v2/ | docker/27"
    );
    assert_eq!(log_line(0, "", "", "", ""), "0 |  |  |  | ");
}
