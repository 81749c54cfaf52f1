use http::uri::{Authority, Scheme};
use http::Uri;
use stavka::origin::{host_without_port, OriginManager};

#[test]
fn unknown_host_has_no_origin() {
    let m = OriginManager::new();
    assert!(m.origin_for_host("stavka.localhost").is_none());
    let uri: Uri = "/video.mp4".parse().unwrap();
    assert!(m.uri_to_origin_uri(uri.host(), uri.path_and_query(), "stavka.localhost").is_none());
}

#[test]
fn origin_uri_keeps_path_and_query() {
    let mut m = OriginManager::new();
    m.set_origin_host("stavka.localhost".to_string(), Scheme::HTTP, Authority::from_static("1.1.1.1"));
    let uri: Uri = "/video.mp4?x=1".parse().unwrap();
    let origin = m.uri_to_origin_uri(uri.host(), uri.path_and_query(), "stavka.localhost").unwrap();
    assert_eq!(origin.to_string(), "http://1.1.1.1/video.mp4?x=1");
}

#[test]
fn uri_host_wins_over_header_host() {
    let mut m = OriginManager::new();
    m.set_origin_host("a.example".to_string(), Scheme::HTTPS, Authority::from_static("10.0.0.1:8443"));
    let uri: Uri = "http://a.example/f".parse().unwrap();
    let origin = m.uri_to_origin_uri(uri.host(), uri.path_and_query(), "b.example").unwrap();
    assert_eq!(origin.to_string(), "https://10.0.0.1:8443/f");
}

#[test]
fn setting_again_replaces_origin() {
    let mut m = OriginManager::new();
    m.set_origin_host("h".to_string(), Scheme::HTTP, Authority::from_static("1.1.1.1"));
    m.set_origin_host("g".to_string(), Scheme::HTTP, Authority::from_static("3.3.3.3"));
    m.set_origin_host("h".to_string(), Scheme::HTTP, Authority::from_static("2.2.2.2"));
    let (_, a) = m.origin_for_host("h").unwrap();
    assert_eq!(a.as_str(), "2.2.2.2");
    let (_, a) = m.origin_for_host("g").unwrap();
    assert_eq!(a.as_str(), "3.3.3.3");
}

#[test]
fn host_port_is_stripped() {
    assert_eq!(host_without_port("stavka.localhost:50002"), "stavka.localhost");
    assert_eq!(host_without_port("stavka.localhost"), "stavka.localhost");
    assert_eq!(host_without_port("a:b:80"), "a:b");
    assert_eq!(host_without_port(""), "");
}

#[test]
fn header_host_used_when_uri_has_none() {
    let mut m = OriginManager::new();
    m.set_origin_host("b.example".to_string(), Scheme::HTTP, Authority::from_static("5.5.5.5"));
    let uri: Uri = "/x?y".parse().unwrap();
    let origin = m.uri_to_origin_uri(uri.host(), uri.path_and_query(), "b.example").unwrap();
    assert_eq!(origin.scheme_str(), Some("http"));
    assert_eq!(origin.authority().unwrap().as_str(), "5.5.5.5");
    assert_eq!(origin.path_and_query().unwrap().as_str(), "/x?y");
}

#[test]
fn uri_without_path_has_no_origin_uri() {
    let mut m = OriginManager::new();
    m.set_origin_host("a.example".to_string(), Scheme::HTTP, Authority::from_static("1.1.1.1"));
    let uri: Uri = "a.example:443".parse().unwrap();
    assert!(uri.path_and_query().is_none());
    assert!(m.uri_to_origin_uri(uri.host(), uri.path_and_query(), "a.example").is_none());
    assert!(m.origin_uri_for_host(None, "a.example").is_none());
}
