use othismo::executors::EchoExecutor;
use othismo::{Errors, OthismoError};

fn request() -> Vec<u8> {
    let mut inner = bson::Document::new();
    inner.insert("send_to", "/echo");
    inner.insert("reply_to", "/caller");
    inner.insert("request_id", 7i64);
    let mut document = bson::Document::new();
    document.insert("othismo", inner);
    document.insert("x", "hi");
    let mut bytes: Vec<u8> = Vec::new();
    document.to_writer(&mut bytes).unwrap();
    bytes
}

#[test]
fn echo_reply_addresses_the_sender() {
    let reply = EchoExecutor::respond(&request()).unwrap();
    let parsed = bson::Document::from_reader(&mut std::io::Cursor::new(reply)).unwrap();
    let header = parsed.get_document("othismo").unwrap();
    assert_eq!(header.get_str("send_to").unwrap(), "/caller");
    assert_eq!(header.get_i64("response_id").unwrap(), 7);
    // the rest of the inbound document is carried over
    assert_eq!(parsed.get_str("x").unwrap(), "hi");
}

#[test]
fn echo_without_reply_header_is_refused() {
    let mut inner = bson::Document::new();
    inner.insert("send_to", "/echo");
    let mut document = bson::Document::new();
    document.insert("othismo", inner);
    let mut bytes: Vec<u8> = Vec::new();
    document.to_writer(&mut bytes).unwrap();
    let result = EchoExecutor::respond(&bytes);
    match result {
        Err(Errors::Othismo(OthismoError::AbiViolation(tag))) => {
            assert_eq!(tag, "missing_reply_header");
        },
        _ => panic!("expected a refusal"),
    }
}
