use reqwest::Url;
use std::time::Duration;
use vila::request::{endpoint_url, trim_slashes, Authorization};
use vila::{EmptyResponse, RequestData, RetryPolicy};

fn owned(pairs: &[(&str, &str)]) -> Vec<(String, String)> {
    pairs.iter().map(|(name, value)| (name.to_string(), value.to_string())).collect()
}

#[test]
fn endpoint_url_trims_the_endpoint() {
    assert_eq!(endpoint_url("http://localhost:8080", "/hello"), "http://localhost:8080/hello");
    assert_eq!(endpoint_url("http://localhost:8080", "hello"), "http://localhost:8080/hello");
    assert_eq!(endpoint_url("http://localhost:8080", "/hello/"), "http://localhost:8080/hello");
    assert_eq!(endpoint_url("http://localhost", "//v1/users//"), "http://localhost/v1/users");
    assert_eq!(endpoint_url("http://localhost", ""), "http://localhost/");
    assert_eq!(endpoint_url("http://localhost", "///"), "http://localhost/");
    assert_eq!(endpoint_url("", "a"), "/a");
}

#[test]
fn endpoint_url_keeps_the_base_as_it_is() {
    assert_eq!(endpoint_url("http://localhost/", "/hello"), "http://localhost//hello");
}

#[test]
fn trim_slashes_keeps_inner_slashes() {
    assert_eq!(trim_slashes("/nested/page/"), "nested/page");
    assert_eq!(trim_slashes("nested/page"), "nested/page");
    assert_eq!(trim_slashes("/"), "");
    assert_eq!(trim_slashes(""), "");
    assert_eq!(trim_slashes("////"), "");
    assert_eq!(trim_slashes("a"), "a");
    assert_eq!(trim_slashes("/a//"), "a");
    assert_eq!(trim_slashes("/caf\u{e9}/\u{1f980}/"), "caf\u{e9}/\u{1f980}");
}

#[test]
fn request_data_defaults_to_empty() {
    assert!(matches!(RequestData::<u8>::default(), RequestData::Empty));
}

#[test]
fn empty_response() {
    let _: EmptyResponse = EmptyResponse::from_body("");
    let _: EmptyResponse = EmptyResponse::from_body("{\"message\": \"ignored\"}");
    let _: EmptyResponse = EmptyResponse::from_body("not even json");
}

#[test]
fn query_auth() {
    let mut url = Url::parse(&endpoint_url("http://localhost", "/hello")).unwrap();
    let auth = Authorization::Query(owned(&[("key", "secret")]));
    assert!(auth.authorize_url(&mut url));
    assert_eq!(url.as_str(), "http://localhost/hello?key=secret");
}

#[test]
fn query_auth_comes_after_what_the_query_holds() {
    let mut url = Url::parse("http://localhost/page?size=5&key=mine&page=2").unwrap();
    let auth = Authorization::Query(owned(&[("key", "secret"), ("user", "me")]));
    assert!(auth.authorize_url(&mut url));
    assert_eq!(url.query(), Some("size=5&key=mine&page=2&key=secret&user=me"));
}

#[test]
fn other_credentials_leave_the_url_alone() {
    let before = Url::parse("http://localhost/hello?x=1").unwrap();
    for auth in [
        Authorization::Bearer("PASSWORD".to_string()),
        Authorization::Basic("user".to_string(), Some("pass".to_string())),
        Authorization::Basic("user".to_string(), None),
        Authorization::Header(owned(&[("key", "secret")])),
        Authorization::Query(Vec::new()),
    ] {
        let mut url = before.clone();
        assert!(auth.authorize_url(&mut url));
        assert_eq!(url, before);
    }
}

#[test]
fn retry_policy_defaults() {
    let policy = RetryPolicy::default();
    assert_eq!(policy.max_retries, 3);
    assert!(policy.jitter);
    assert!(!policy.retry_on_client_error);
    assert!(policy.retry_on_server_error);
    assert_eq!(policy.timeout, Duration::from_secs(1));
}
