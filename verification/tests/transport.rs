use jsonrpsee_core::http::{HttpConfig, HttpError, HttpTransportClient};
use jsonrpsee_core::wire::{request_frame, Id};

#[test]
fn invalid_http_url_rejected() {
    let err = HttpTransportClient::new("ws://localhost:9933", HttpConfig::default()).unwrap_err();
    assert!(matches!(err, HttpError::Url(_)));
}

#[test]
fn https_is_accepted() {
    assert!(HttpTransportClient::new("https://localhost:9933", HttpConfig::default()).is_ok());
    assert!(HttpTransportClient::new("http://localhost:9933", HttpConfig::default()).is_ok());
    assert!(HttpTransportClient::new("not a url", HttpConfig::default()).is_err());
}

#[test]
fn request_limit_works() {
    let eighty_bytes_limit = 80;
    let client = HttpTransportClient::new(
        "http://localhost:9933",
        HttpConfig { max_request_body_size: 80 },
    )
    .unwrap();
    assert_eq!(client.config.max_request_body_size, eighty_bytes_limit);

    // a frame of exactly 81 bytes is refused before any network use
    let method = "request_larger_than_eightybytes_aaaaaaaaaaaaa";
    let frame = request_frame(method, None, Id::Num(1));
    assert_eq!(frame.len(), 81);
    let err = client.prepare_request(&frame).unwrap_err();
    assert!(matches!(err, HttpError::RequestTooLarge));

    // one byte less goes through whole
    let method = "request_larger_than_eightybytes_aaaaaaaaaaaa";
    let frame = request_frame(method, None, Id::Num(1));
    assert_eq!(frame.len(), 80);
    let body = client.prepare_request(&frame).unwrap();
    assert_eq!(body, frame.as_bytes().to_vec());
}

#[test]
fn status_codes_outside_success_fail() {
    assert!(HttpTransportClient::check_status(200).is_ok());
    assert!(HttpTransportClient::check_status(299).is_ok());
    let err = HttpTransportClient::check_status(404).unwrap_err();
    match err {
        HttpError::RequestFailure { status_code } => assert_eq!(status_code, 404),
        _ => panic!("wrong error variant"),
    }
    assert!(HttpTransportClient::check_status(199).is_err());
}

#[test]
fn response_size_cap_fails_only_above_the_cap() {
    let client =
        HttpTransportClient::new("http://x", HttpConfig { max_request_body_size: 10 }).unwrap();
    assert!(client.check_response_size(10).is_ok());
    let err = client.check_response_size(11).unwrap_err();
    assert!(matches!(err, HttpError::RequestTooLarge));
}

#[test]
fn response_bodies_must_be_replies() {
    let err = HttpTransportClient::parse_response("not json").unwrap_err();
    assert!(matches!(err, HttpError::ParseError));
    let ok = HttpTransportClient::parse_response("{\"jsonrpc\":\"2.0\",\"result\":7,\"id\":1}");
    assert!(ok.is_ok());
}
