use vila::error::{classify, decoded};
use vila::RequestError;

fn transport_failure() -> reqwest::Error {
    reqwest::Client::new().get("not a url").build().unwrap_err()
}

#[test]
fn client_error() {
    assert!(matches!(
        classify(Ok((404, String::new()))).unwrap_err(),
        RequestError::ClientError(status, msg) if (status == 404 && msg == String::new())
    ));
}

#[test]
fn server_error() {
    assert!(matches!(
        classify(Ok((500, String::new()))).unwrap_err(),
        RequestError::ServerError(status, msg) if (status == 500 && msg == String::new())
    ));
}

#[test]
fn a_client_error_carries_the_body() {
    match classify(Ok((404, "no such thing".to_string()))) {
        Err(RequestError::ClientError(404, body)) => assert_eq!(body, "no such thing"),
        other => panic!("unexpected outcome: {:?}", other),
    }
}

#[test]
fn a_success_hands_the_body_on() {
    assert_eq!(classify(Ok((200, "{}".to_string()))).unwrap(), "{}");
    assert_eq!(classify(Ok((204, String::new()))).unwrap(), "");
    assert_eq!(classify(Ok((299, "x".to_string()))).unwrap(), "x");
}

#[test]
fn the_ranges_of_status_codes() {
    assert!(matches!(classify(Ok((199, String::new()))), Err(RequestError::ServerError(199, _))));
    assert!(matches!(classify(Ok((300, String::new()))), Err(RequestError::ServerError(300, _))));
    assert!(matches!(classify(Ok((399, String::new()))), Err(RequestError::ServerError(399, _))));
    assert!(matches!(classify(Ok((400, String::new()))), Err(RequestError::ClientError(400, _))));
    assert!(matches!(classify(Ok((499, String::new()))), Err(RequestError::ClientError(499, _))));
    assert!(matches!(classify(Ok((500, String::new()))), Err(RequestError::ServerError(500, _))));
    assert!(matches!(classify(Ok((503, String::new()))), Err(RequestError::ServerError(503, _))));
}

#[test]
fn a_transport_failure_is_passed_on() {
    let failure = transport_failure();
    let text = failure.to_string();
    match classify(Err(failure)) {
        Err(RequestError::Reqwest(error)) => assert_eq!(error.to_string(), text),
        other => panic!("unexpected outcome: {:?}", other),
    }
}

#[test]
fn a_codec_failure_keeps_the_text() {
    let parsed = serde_json::from_str::<u32>("not json");
    let text = parsed.as_ref().unwrap_err().to_string();
    match decoded(parsed, "not json".to_string()) {
        Err(RequestError::Serde { error, msg }) => {
            assert_eq!(error.to_string(), text);
            assert_eq!(msg, "not json");
        },
        other => panic!("unexpected outcome: {:?}", other),
    }
}

#[test]
fn a_decoded_value_is_passed_on() {
    let parsed = serde_json::from_str::<u32>("17");
    assert_eq!(decoded(parsed, "17".to_string()).unwrap(), 17);
}
