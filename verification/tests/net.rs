use std::io::Read;

use gec_uplink::json::Json;
use gec_uplink::net::{
    bearer, gzip_request, join, resolve_download_url, resolve_parsed_url, same_origin,
    same_origin_parts, server_error, token_for_download, UrlParts,
};
use gec_uplink::textmap::TextMap;

fn obj(fields: Vec<(&str, Json)>) -> Json {
    let mut m: TextMap<Json> = TextMap::new();
    for (k, v) in fields {
        m.insert(k.to_string(), v);
    }
    Json::Obj(m)
}

fn text(s: &str) -> Json {
    Json::Str(s.to_string())
}

#[test]
fn same_origin_confines_the_token() {
    let base = "https://goblineng.co";
    assert!(same_origin("https://goblineng.co/api/download/sbf/public/1", base));
    assert!(!same_origin("http://attacker.example/x.zip", base));
    assert!(!same_origin("https://github.com/org/SBF/releases/download/1/SBF.zip", base));
    assert!(!same_origin("http://goblineng.co/api/download/x", base));
    assert!(same_origin("https://t.example/api/download/x", "https://t.example"));
}

#[test]
fn rewrites_server_api_host_but_passes_github_through() {
    let base = "https://goblineng.co";
    assert_eq!(
        resolve_download_url("https://wrong-host.example/api/download/sbf/dev/2026.07.15.2", base),
        "https://goblineng.co/api/download/sbf/dev/2026.07.15.2"
    );
    assert_eq!(
        resolve_download_url("http://wrong-host.example/api/download/x?platform=mac", base),
        "https://goblineng.co/api/download/x?platform=mac"
    );
    let gh = "https://github.com/Goblin-Engineering-Company/SBF/releases/download/2026.07.12.1/SBF-2026.07.12.1.zip";
    assert_eq!(resolve_download_url(gh, base), gh);
    assert_eq!(
        resolve_download_url("https://goblineng.co/api/download/sbf/dev/1", base),
        "https://goblineng.co/api/download/sbf/dev/1"
    );
}

#[test]
fn the_default_port_is_part_of_the_origin() {
    assert!(same_origin("https://goblineng.co:443/x", "https://goblineng.co"));
    assert!(!same_origin("https://goblineng.co:8443/x", "https://goblineng.co"));
    assert!(!same_origin("not a url", "https://goblineng.co"));
}

fn parts(scheme: &str, host: &str, path: &str, query: Option<&str>) -> Option<UrlParts> {
    Some(UrlParts {
        scheme: scheme.to_string(),
        host: Some(host.to_string()),
        port: Some(443),
        path: path.to_string(),
        query: query.map(|q| q.to_string()),
    })
}

#[test]
fn origins_are_decided_on_the_parts() {
    let a = parts("https", "a", "/", None);
    assert!(same_origin_parts(&a, &parts("https", "a", "/x", Some("q"))));
    assert!(!same_origin_parts(&a, &parts("https", "b", "/", None)));
    assert!(!same_origin_parts(&a, &parts("http", "a", "/", None)));
    assert!(!same_origin_parts(&a, &None));
    assert_eq!(
        resolve_parsed_url(&parts("https", "b", "/api/download/x", Some("p=1")), "u", "https://a/"),
        "https://a/api/download/x?p=1"
    );
    assert_eq!(resolve_parsed_url(&parts("https", "b", "/other", None), "u", "https://a"), "u");
    assert_eq!(resolve_parsed_url(&None, "u", "https://a"), "u");
}

#[test]
fn the_token_goes_to_the_server_only() {
    let t = || Some("t".to_string());
    assert_eq!(token_for_download("https://a.example/x", "https://a.example", t()), t());
    assert_eq!(token_for_download("https://b.example/x", "https://a.example", t()), None);
    assert_eq!(token_for_download("https://a.example/x", "https://a.example", None), None);
}

#[test]
fn addresses_are_joined_with_one_slash() {
    assert_eq!(join("https://a.example/", "/api/me"), "https://a.example/api/me");
    assert_eq!(join("https://a.example", "/api/me"), "https://a.example/api/me");
}

#[test]
fn requests_that_need_a_token_fail_without_one() {
    assert_eq!(bearer(Some("t".to_string()), true), Ok(Some("t".to_string())));
    assert_eq!(bearer(None, false), Ok(None));
    assert!(bearer(None, true).is_err());
}

#[test]
fn bodies_are_compressed() {
    let raw = b"{\"a\":1}".repeat(100);
    let r = gzip_request("https://a.example", "/api/ingest", Some("t".to_string()), &raw).unwrap();
    assert_eq!(r.url, "https://a.example/api/ingest");
    assert_eq!(r.token, "t");
    assert!(r.body.len() < raw.len());
    let mut back = Vec::new();
    flate2::read::GzDecoder::new(&r.body[..]).read_to_end(&mut back).unwrap();
    assert_eq!(back, raw);
    assert!(gzip_request("https://a.example", "/api/ingest", None, &raw).is_err());
}

#[test]
fn errors_of_the_server_are_told() {
    let frozen = obj(vec![
        ("frozen", Json::Bool(true)),
        ("message", text("Back at noon.")),
        ("error", text("ingest frozen")),
    ]);
    assert_eq!(
        server_error(503, "503 Service Unavailable", Some(&frozen)),
        "Uploads paused: Back at noon."
    );
    let silent = obj(vec![("frozen", Json::Bool(true)), ("message", text(""))]);
    assert_eq!(
        server_error(503, "503 Service Unavailable", Some(&silent)),
        "Uploads paused: uploads are temporarily paused \u{2014} try again later"
    );
    let plain = obj(vec![("error", text("bad code"))]);
    assert_eq!(server_error(400, "400 Bad Request", Some(&plain)), "bad code (400)");
    let old = obj(vec![("error", text("too old")), ("update", text("Uplink"))]);
    assert_eq!(
        server_error(426, "426 Upgrade Required", Some(&old)),
        "too old \u{2014} please update Uplink (426)"
    );
    assert_eq!(
        server_error(500, "500 Internal Server Error", None),
        "server returned 500 Internal Server Error"
    );
}
