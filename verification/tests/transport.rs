use ethrpc::facade::{decode_block_number, fetch_block_number_outcome, fetch_latest_block_outcome,
    ClientError};
use ethrpc::envelope::DecodeError;
use ethrpc::quantity::NumericDecodeError;
use ethrpc::transport::{classify_status, conn_step, ConnEvent, ConnState, InfuraAPI, InfuraWS,
    TransportError};

#[test]
fn http_path_embeds_the_token() {
    let p = InfuraAPI::get_path("abc123").unwrap();
    assert_eq!(p, "https://mainnet.infura.io/v3/abc123");
}

#[test]
fn ws_path_embeds_the_token() {
    let p = InfuraWS::get_ws_path("abc123").unwrap();
    assert_eq!(p, "wss://mainnet.infura.io/ws/v3/abc123");
}

#[test]
fn missing_token_fails_before_any_network_use() {
    assert!(InfuraAPI::get_path("").is_err());
    assert!(InfuraWS::get_ws_path("").is_err());
}

#[test]
fn status_classification() {
    assert!(classify_status(200).is_ok());
    assert!(classify_status(204).is_ok());
    assert!(classify_status(299).is_ok());
    assert_eq!(classify_status(199), Err(TransportError::HttpStatus(199)));
    assert_eq!(classify_status(301), Err(TransportError::HttpStatus(301)));
    assert_eq!(classify_status(404), Err(TransportError::HttpStatus(404)));
    assert_eq!(classify_status(500), Err(TransportError::HttpStatus(500)));
}

#[test]
fn connection_life_cycle() {
    assert_eq!(conn_step(ConnState::Connecting, ConnEvent::HandshakeOk), ConnState::Open);
    assert_eq!(conn_step(ConnState::Connecting, ConnEvent::HandshakeFailed), ConnState::Failed);
    assert_eq!(conn_step(ConnState::Open, ConnEvent::FrameReceived), ConnState::Open);
    assert_eq!(conn_step(ConnState::Open, ConnEvent::CleanClose), ConnState::Closed);
    assert_eq!(conn_step(ConnState::Open, ConnEvent::ReadFailed), ConnState::Failed);
    assert_eq!(conn_step(ConnState::Open, ConnEvent::WriteFailed), ConnState::Failed);
}

#[test]
fn closed_and_failed_are_terminal() {
    let events = [
        ConnEvent::HandshakeOk,
        ConnEvent::HandshakeFailed,
        ConnEvent::FrameReceived,
        ConnEvent::CleanClose,
        ConnEvent::ReadFailed,
        ConnEvent::WriteFailed,
    ];
    for e in events {
        assert_eq!(conn_step(ConnState::Closed, e), ConnState::Closed);
        assert_eq!(conn_step(ConnState::Failed, e), ConnState::Failed);
    }
}

#[test]
fn clean_close_after_one_frame_ends_without_error() {
    let mut st = ConnState::Connecting;
    st = conn_step(st, ConnEvent::HandshakeOk);
    st = conn_step(st, ConnEvent::FrameReceived);
    assert_eq!(st, ConnState::Open);
    st = conn_step(st, ConnEvent::CleanClose);
    assert_eq!(st, ConnState::Closed);
}

#[test]
fn non_success_status_is_a_transport_error_never_a_decode() {
    let body = "{\"jsonrpc\":\"2.0\",\"id\":\"1\",\"result\":\"0x10d4f\"}";
    let r = fetch_block_number_outcome(404, body, "1");
    assert!(matches!(
        r,
        Err(ClientError::Transport(TransportError::HttpStatus(404)))
    ));
    let r = fetch_latest_block_outcome(500, body);
    assert!(matches!(
        r,
        Err(ClientError::Transport(TransportError::HttpStatus(500)))
    ));
}

#[test]
fn success_status_decodes_the_example_body() {
    let body = "{\"jsonrpc\":\"2.0\",\"id\":\"1\",\"result\":\"0x10d4f\"}";
    assert!(matches!(fetch_block_number_outcome(200, body, "1"), Ok(68943)));
}

#[test]
fn latest_block_body_is_passed_through_opaque() {
    let body = "{\"jsonrpc\":\"2.0\",\"id\":\"1\",\"result\":{\"number\":\"0x10d4f\"}}";
    let r = fetch_latest_block_outcome(200, body).unwrap();
    assert_eq!(r, body);
}

#[test]
fn decode_block_number_checks_the_response_id() {
    let body = "{\"jsonrpc\":\"2.0\",\"id\":\"2\",\"result\":\"0x10d4f\"}";
    let r = decode_block_number(body, "1");
    assert!(matches!(r, Err(ClientError::Decode(DecodeError::IdMismatch))));
}

#[test]
fn decode_block_number_keeps_error_kinds_apart() {
    let r = decode_block_number("garbage", "1");
    assert!(matches!(r, Err(ClientError::Decode(DecodeError::Malformed))));
    let body = "{\"jsonrpc\":\"2.0\",\"id\":\"1\",\"result\":\"10d4f\"}";
    let r = decode_block_number(body, "1");
    assert!(matches!(
        r,
        Err(ClientError::NumericDecode(NumericDecodeError::MissingPrefix))
    ));
    let body = "{\"jsonrpc\":\"2.0\",\"id\":\"1\",\"result\":\"0xzz\"}";
    let r = decode_block_number(body, "1");
    assert!(matches!(
        r,
        Err(ClientError::NumericDecode(NumericDecodeError::NotHex))
    ));
    let body = "{\"jsonrpc\":\"2.0\",\"id\":\"1\",\"result\":\"0x8000000000000000\"}";
    let r = decode_block_number(body, "1");
    assert!(matches!(
        r,
        Err(ClientError::NumericDecode(NumericDecodeError::Overflow))
    ));
}

#[test]
fn server_error_surfaces_through_the_facade() {
    let body =
        "{\"jsonrpc\":\"2.0\",\"id\":\"1\",\"error\":{\"code\":-32601,\"message\":\"method not found\"}}";
    let r = fetch_block_number_outcome(200, body, "1");
    match r {
        Err(ClientError::Rpc(b)) => {
            assert_eq!(b.code, -32601);
            assert_eq!(b.message, "method not found");
        },
        _ => panic!("expected the server error to surface"),
    }
}
