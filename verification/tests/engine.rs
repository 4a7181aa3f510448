use axum::http::{HeaderMap, HeaderName, HeaderValue};
use registry_proxy::config::{Config, DockerConfig, Registries, RegistryMapping, RequestLimit};
use registry_proxy::docker::DockerProvider;
use registry_proxy::engine::{
    announce_length, check_size, clean_headers, complete_realm, extract_host, forward_lines,
    open_request, read_failure, redirect_location, rewrites_body, route_redirect,
    select_credentials, send_failure, HeaderOverflow, ProviderKind, Route, SizeCheck,
};

fn headers(lines: &[(&'static str, &str)]) -> HeaderMap {
    let mut map = HeaderMap::new();
    for (name, value) in lines {
        map.append(*name, HeaderValue::from_str(value).unwrap());
    }
    map
}

fn collect(lines: Vec<(HeaderName, HeaderValue)>) -> HeaderMap {
    let mut map = HeaderMap::new();
    for (name, value) in lines {
        map.append(name, value);
    }
    map
}

fn registry(upstream: &str, auth_host: &str, username: &str, enabled: bool) -> RegistryMapping {
    RegistryMapping {
        enabled,
        upstream: upstream.to_string(),
        auth_host: auth_host.to_string(),
        username: username.to_string(),
        password: format!("{}-secret", username),
    }
}

fn config(limit_size: i64) -> Config {
    let mut registries = Registries::new();
    registries.insert("off".to_string(), registry("r.io", "a.io/t", "nobody", false));
    registries.insert("anonymous".to_string(), registry("r.io", "a.io/t", "", true));
    registries.insert("r.io".to_string(), registry("r.io", "a.io/t", "me", true));
    registries.insert("also".to_string(), registry("r.io", "b.io", "you", true));
    Config { docker: DockerConfig { registries }, request_limit: RequestLimit { limit_size } }
}

#[test]
fn extracts_hosts_without_ports() {
    assert_eq!(extract_host("https://a.io/x/y"), Some("a.io"));
    assert_eq!(extract_host("http://a.io"), Some("a.io"));
    assert_eq!(extract_host("https://a.io:5000/x"), Some("a.io"));
    assert_eq!(extract_host("http://a.io:/x"), Some("a.io"));
    assert_eq!(extract_host("https://[::1]:80/"), Some("[::1]"));
    assert_eq!(extract_host("https://[::1]/"), Some("[::1]"));
    assert_eq!(extract_host("https://"), Some(""));
    assert_eq!(extract_host("https:///x"), Some(""));
    assert_eq!(extract_host("a.io/x"), None);
    assert_eq!(extract_host("ftp://a.io"), None);
    assert_eq!(extract_host("HTTPS://a.io"), None);
}

#[test]
fn forwards_all_headers_but_the_host() {
    let request = headers(&[
        ("host", "proxy"),
        ("accept", "a"),
        ("accept", "b"),
        ("authorization", "mine"),
        ("referer", "https://proxy/x"),
    ]);
    let lines = collect(forward_lines(&request, &Some("up.io".to_string())));
    assert!(!lines.contains_key("host"));
    let accepts: Vec<&HeaderValue> = lines.get_all("accept").iter().collect();
    assert_eq!(accepts, vec!["a", "b"]);
    assert_eq!(lines["authorization"], "mine");
    assert_eq!(lines["referer"], "https://up.io/");
    assert_eq!(lines.len(), 4);
}

#[test]
fn keeps_the_referer_without_a_usable_host() {
    let request = headers(&[("referer", "https://proxy/x")]);
    assert_eq!(collect(forward_lines(&request, &None))["referer"], "https://proxy/x");
    let bad = Some("a\nb".to_string());
    assert_eq!(collect(forward_lines(&request, &bad))["referer"], "https://proxy/x");

    let mut opaque = HeaderMap::new();
    let value = HeaderValue::from_bytes(b"\xff").unwrap();
    opaque.insert("referer", value.clone());
    let host = Some("up.io".to_string());
    assert_eq!(collect(forward_lines(&opaque, &host))["referer"], value);
}

#[test]
fn a_host_beyond_ascii_still_makes_a_referer() {
    let request = headers(&[("referer", "x")]);
    let lines = collect(forward_lines(&request, &Some("\u{e9}.io".to_string())));
    assert_eq!(lines["referer"].as_bytes(), "https://\u{e9}.io/".as_bytes());
}

#[test]
fn selects_the_account_of_the_host() {
    let none = HeaderMap::new();
    let c = config(0);
    let pick = |url: &str| select_credentials(&none, url, &c).map(|x| (x.username, x.password));
    let me = Some(("me".to_string(), "me-secret".to_string()));
    assert_eq!(pick("https://r.io/v2/x"), me);
    assert_eq!(pick("https://r.io:443/v2/x"), me);
    assert_eq!(pick("https://a.io/t"), me);
    assert_eq!(
        pick("http://b.io/"),
        Some(("you".to_string(), "you-secret".to_string()))
    );
    assert_eq!(pick("https://c.io/"), None);
    assert_eq!(pick("r.io"), None);
}

#[test]
fn ports_tell_registries_of_one_host_apart() {
    let mut registries = Registries::new();
    registries.insert("a".to_string(), registry("b:50", "c:70/t", "first", true));
    registries.insert("b".to_string(), registry("b:60", "d/t", "second", true));
    let request_limit = RequestLimit { limit_size: 0 };
    let c = Config { docker: DockerConfig { registries }, request_limit };
    let pick = |url: &str| select_credentials(&HeaderMap::new(), url, &c).map(|x| x.username);
    assert_eq!(pick("https://b:50/v2/").as_deref(), Some("first"));
    assert_eq!(pick("https://b:60/v2/").as_deref(), Some("second"));
    assert_eq!(pick("https://c:70/t?service=x").as_deref(), Some("first"));
    assert_eq!(pick("https://d:443/t").as_deref(), Some("second"));
    assert_eq!(pick("https://b/v2/"), None);
    assert_eq!(pick("https://b:70/v2/"), None);
    let url = DockerProvider::new().transform("v2/b/x".to_string(), &c);
    assert_eq!(pick(&url).as_deref(), Some("second"));
}

#[test]
fn a_client_authorization_is_not_overridden() {
    let request = headers(&[("authorization", "mine")]);
    assert!(select_credentials(&request, "https://r.io/", &config(0)).is_none());
}

#[test]
fn routed_requests_are_logged_in() {
    let c = config(0);
    let url = DockerProvider::new().transform("v2/r.io/x/y".to_string(), &c);
    assert_eq!(url, "https://r.io/v2/x/y");
    assert_eq!(select_credentials(&HeaderMap::new(), &url, &c).unwrap().username, "me");
}

#[test]
fn requests_that_name_no_registry_are_logged_in() {
    let mut registries = Registries::new();
    let hub = registry("registry-1.docker.io", "auth.docker.io/token", "me", true);
    registries.insert("docker.io".to_string(), hub);
    let request_limit = RequestLimit { limit_size: 0 };
    let c = Config { docker: DockerConfig { registries }, request_limit };
    let url = DockerProvider::new().transform("v2/library/nginx".to_string(), &c);
    assert_eq!(url, "https://registry-1.docker.io/v2/library/nginx");
    assert_eq!(select_credentials(&HeaderMap::new(), &url, &c).unwrap().username, "me");
}

#[test]
fn refuses_the_tenth_redirect() {
    let none = HeaderMap::new();
    let c = config(0);
    assert!(open_request(9, &none, "https://r.io/", &None, &c).is_ok());
    for depth in [10, 11, 255] {
        match open_request(depth, &none, "https://r.io/", &None, &c) {
            Ok(_) => panic!("admitted"),
            Err(reply) => {
                assert_eq!(reply.status, 508);
                assert_eq!(reply.body, "Too many redirects.");
            }
        }
    }
}

#[test]
fn failures_say_what_failed() {
    let reply = send_failure("no route");
    assert_eq!((reply.status, reply.body.as_str()), (500, "server error no route"));
    let reply = read_failure("cut off");
    assert_eq!((reply.status, reply.body.as_str()), (500, "read error cut off"));
}

#[test]
fn holds_answers_to_the_size_limit() {
    let check = |value: &str, limit: i64| check_size(&headers(&[("content-length", value)]), limit);
    assert_eq!(check("1048576", 1), SizeCheck::Passes);
    assert_eq!(check("1048577", 1), SizeCheck::TooLarge);
    assert_eq!(check("+1048577", 1), SizeCheck::TooLarge);
    assert_eq!(check("-1", 1), SizeCheck::Passes);
    assert_eq!(check("00000000000000000001048577", 1), SizeCheck::TooLarge);
    assert_eq!(check("9223372036854775807", 1), SizeCheck::TooLarge);
    assert_eq!(check("9223372036854775808", 1), SizeCheck::Passes);
    assert_eq!(check("-9223372036854775808", 1), SizeCheck::Passes);
    assert_eq!(check("99999999999999999999999999999999999999999999", 1), SizeCheck::Passes);
    assert_eq!(check("", 1), SizeCheck::Passes);
    assert_eq!(check("+", 1), SizeCheck::Passes);
    assert_eq!(check("1e9", 1), SizeCheck::Passes);
    assert_eq!(check(" 99999999", 1), SizeCheck::Passes);
    assert_eq!(check("99999999999", 0), SizeCheck::Passes);
    assert_eq!(check("99999999999", -5), SizeCheck::Passes);
    assert_eq!(check("1", 8796093022207), SizeCheck::Passes);
    assert_eq!(check("1", 8796093022208), SizeCheck::LimitOverflow);
    assert_eq!(check("x", 8796093022208), SizeCheck::Passes);
    assert_eq!(check_size(&HeaderMap::new(), 1), SizeCheck::Passes);
    let mut opaque = HeaderMap::new();
    opaque.insert("content-length", HeaderValue::from_bytes(b"\xff").unwrap());
    assert_eq!(check_size(&opaque, 1), SizeCheck::Passes);
    assert_eq!(check_size(&opaque, i64::MAX), SizeCheck::LimitOverflow);
}

#[test]
fn cleaning_drops_policies_and_keeps_first_values() {
    let answer = headers(&[
        ("content-security-policy", "x"),
        ("referrer-policy", "x"),
        ("strict-transport-security", "x"),
        ("set-cookie", "a"),
        ("set-cookie", "b"),
        ("x_odd", "y"),
    ]);
    let passed = clean_headers(&answer).unwrap();
    assert_eq!(passed, headers(&[("set-cookie", "a"), ("x_odd", "y")]));
    assert_eq!(clean_headers(&passed).unwrap(), passed);
    assert_eq!(clean_headers(&HeaderMap::new()).unwrap(), HeaderMap::new());
}

#[test]
fn completes_relative_realms() {
    let request = headers(&[("host", "proxy.example:8080")]);
    let complete = |text: &str| {
        let mut answer = headers(&[("www-authenticate", text), ("x-realm", "realm=\"/a\"")]);
        complete_realm(&mut answer, &request);
        assert_eq!(answer["x-realm"], "realm=\"/a\"");
        answer["www-authenticate"].to_str().unwrap().to_string()
    };
    assert_eq!(
        complete("Bearer realm=\"/token\",service=\"/a\",x=\"realm\""),
        "Bearer realm=\"https://proxy.example:8080/token\",service=\"/a\",x=\"realm\""
    );
    assert_eq!(complete("realm=\"/\""), "realm=\"https://proxy.example:8080/\"");
    assert_eq!(
        complete("realm=\"/a\", realm=\"/b\""),
        "realm=\"https://proxy.example:8080/a\", realm=\"/b\""
    );
    assert_eq!(
        complete("realm=\"/ realm=\"/b\""),
        "realm=\"https://proxy.example:8080/ realm=\"/b\""
    );
    for same in ["realm=\"https://x/t\"", "realm=\"/open", "Basic realm=\"x\"", "realm=/t"] {
        assert_eq!(complete(same), same);
    }
}

#[test]
fn realms_stay_without_a_host() {
    let mut answer = headers(&[("www-authenticate", "realm=\"/t\"")]);
    complete_realm(&mut answer, &HeaderMap::new());
    assert_eq!(answer["www-authenticate"], "realm=\"/t\"");
    let mut none = HeaderMap::new();
    complete_realm(&mut none, &headers(&[("host", "h")]));
    assert!(none.is_empty());
}

#[test]
fn a_dollar_sign_in_the_host_stays() {
    for host in ["a-$1-b", "$", "$$", "a$", "${1}", "$0$1x"] {
        let mut answer = headers(&[("www-authenticate", "x realm=\"/t\", y")]);
        complete_realm(&mut answer, &headers(&[("host", host)]));
        let expected = format!("x realm=\"https://{}/t\", y", host);
        assert_eq!(answer["www-authenticate"], expected.as_str());
    }
}

#[test]
fn challenges_lead_to_the_token_endpoint_of_the_proxy() {
    let c = config(0);
    let mut answer = headers(&[(
        "www-authenticate",
        "Bearer realm=\"https://a.io/t\",service=\"r.io\"",
    )]);
    DockerProvider::new().handle_response(&mut answer, &c);
    assert_eq!(answer["www-authenticate"], "Bearer realm=\"/token\",service=\"r.io\"");
    complete_realm(&mut answer, &headers(&[("host", "proxy")]));
    assert_eq!(
        answer["www-authenticate"],
        "Bearer realm=\"https://proxy/token\",service=\"r.io\""
    );
}

#[test]
fn explicit_requests_follow_http_locations() {
    for kind in [None, Some(ProviderKind::Explicit)] {
        for (claims, expected) in [(true, Some(ProviderKind::Explicit)), (false, None)] {
            let mut answer = headers(&[("location", "http-like"), ("location", "second")]);
            let before = answer.clone();
            match route_redirect(&mut answer, kind, 3, claims, true) {
                Route::Follow { url, depth, provider } => {
                    assert_eq!((url.as_str(), depth, provider), ("http-like", 4, expected));
                }
                _ => panic!("not followed"),
            }
            assert_eq!(answer, before);
        }
        let mut relative = headers(&[("location", "/x")]);
        assert!(matches!(route_redirect(&mut relative, kind, 3, true, true), Route::Answer));
        assert_eq!(relative["location"], "/x");
    }
}

#[test]
fn browsing_keeps_claimed_locations_in_the_proxy() {
    for (explicit, web) in [(true, false), (false, true), (true, true)] {
        let mut answer = headers(&[("location", "https://x/y"), ("location", "z")]);
        let route = route_redirect(&mut answer, Some(ProviderKind::Web), 0, explicit, web);
        assert!(matches!(route, Route::Answer));
        assert_eq!(answer, headers(&[("location", "/https://x/y")]));
    }
}

#[test]
fn browsing_follows_unclaimed_locations() {
    let mut answer = headers(&[("location", "/relative")]);
    match route_redirect(&mut answer, Some(ProviderKind::Web), 9, false, false) {
        Route::Follow { url, depth, provider } => {
            assert_eq!((url.as_str(), depth, provider), ("/relative", 10, None));
        }
        _ => panic!("not followed"),
    }
}

#[test]
fn answers_without_a_readable_location_do_not_redirect() {
    let mut none = HeaderMap::new();
    assert_eq!(redirect_location(&none), None);
    assert!(matches!(route_redirect(&mut none, None, 0, true, true), Route::Answer));
    let mut opaque = HeaderMap::new();
    opaque.insert("location", HeaderValue::from_bytes(b"http\xff").unwrap());
    assert_eq!(redirect_location(&opaque), None);
    assert!(matches!(route_redirect(&mut opaque, None, 0, true, true), Route::Answer));
    assert_eq!(redirect_location(&headers(&[("location", "x")])).as_deref(), Some("x"));
}

#[test]
fn pages_are_offered_to_the_provider() {
    let html = headers(&[("content-type", "text/html; charset=utf-8")]);
    assert!(rewrites_body(&html, true));
    assert!(!rewrites_body(&html, false));
    assert!(!rewrites_body(&headers(&[("content-type", "text/plain")]), true));
    assert!(!rewrites_body(&HeaderMap::new(), true));
}

#[test]
fn announces_the_length_behind_what_is_there() {
    let mut answer = headers(&[("content-length", "5")]);
    announce_length(&mut answer, 1234567890).unwrap();
    let values: Vec<&HeaderValue> = answer.get_all("content-length").iter().collect();
    assert_eq!(values, vec!["5", "1234567890"]);
    let mut none = HeaderMap::new();
    announce_length(&mut none, 0).unwrap();
    assert_eq!(none["content-length"], "0");
}

/// A map with as many names as fit, the given locations among them.
fn full_map(locations: &[&'static str]) -> HeaderMap {
    let mut map = HeaderMap::new();
    for location in locations {
        map.append("location", HeaderValue::from_static(location));
    }
    for i in 0..24575 {
        let name = HeaderName::from_bytes(format!("x{}", i).as_bytes()).unwrap();
        assert!(map.try_insert(name, HeaderValue::from_static("v")).is_ok());
    }
    map
}

#[test]
fn a_full_map_takes_a_new_location_for_the_only_one() {
    let mut map = full_map(&["https://x/y"]);
    assert_eq!(map.keys_len(), 24576);
    let route = route_redirect(&mut map, Some(ProviderKind::Web), 0, true, false);
    assert!(matches!(route, Route::Answer));
    assert_eq!(map["location"], "/https://x/y");
    assert_eq!(map.len(), 24576);
}

#[test]
fn a_full_map_takes_no_new_location_for_several() {
    let mut map = full_map(&["https://x/y", "z"]);
    assert_eq!(map.keys_len(), 24576);
    let before = map.clone();
    let route = route_redirect(&mut map, Some(ProviderKind::Web), 0, true, false);
    assert!(matches!(route, Route::HeaderOverflow));
    assert_eq!(map, before);
}

#[test]
fn a_full_map_takes_no_length() {
    let mut map = full_map(&["https://x/y"]);
    assert_eq!(announce_length(&mut map, 7), Err(HeaderOverflow));
    assert!(!map.contains_key("content-length"));
    assert_eq!(map.len(), 24576);
}

#[test]
fn a_roomy_map_is_cleaned() {
    let mut map = HeaderMap::new();
    for i in 0..6553 {
        let name = HeaderName::from_bytes(format!("x{}", i).as_bytes()).unwrap();
        map.insert(name, HeaderValue::from_static("v"));
    }
    assert_eq!(clean_headers(&map).unwrap(), map);
    assert!(announce_length(&mut map, 7).is_ok());
    assert_eq!(map.len(), 6554);
}

#[test]
fn token_requests_are_logged_in() {
    let c = config(0);
    let url = DockerProvider::new().transform("token?service=r.io".to_string(), &c);
    assert_eq!(url, "https://a.io/t?service=r.io");
    assert_eq!(select_credentials(&HeaderMap::new(), &url, &c).unwrap().username, "me");
    let own = headers(&[("authorization", "mine")]);
    assert!(select_credentials(&own, &url, &c).is_none());
}
