use ethrpc::envelope::{
    parse_request, parse_response, serialize_request, str_json_safe, DecodeError, EnvelopeError,
    JsonRpcRequest, JsonRpcResponse, MultipleTypes,
};
use ethrpc::facade::{block_number_request, latest_block_frame, latest_block_request};

#[test]
fn serialize_block_number_request_exactly() {
    let req = block_number_request();
    let wire = serialize_request(&req);
    assert_eq!(
        wire,
        "{\"jsonrpc\":\"2.0\",\"method\":\"eth_blockNumber\",\"id\":\"1\",\"params\":[]}"
    );
}

#[test]
fn serialize_latest_block_request_exactly() {
    let req = latest_block_request();
    let wire = serialize_request(&req);
    assert_eq!(
        wire,
        "{\"jsonrpc\":\"2.0\",\"method\":\"eth_getBlockByNumber\",\"id\":\"1\",\"params\":[\"latest\",true]}"
    );
    assert_eq!(latest_block_frame(), wire);
}

#[test]
fn request_round_trips_through_the_wire_encoding() {
    let req = JsonRpcRequest {
        jsonrpc: String::from("2.0"),
        method: String::from("eth_getBlockByNumber"),
        id: String::from("42"),
        params: vec![
            MultipleTypes::Str(String::from("latest")),
            MultipleTypes::Bool(true),
            MultipleTypes::Str(String::from("x")),
            MultipleTypes::Bool(false),
        ],
    };
    let wire = serialize_request(&req);
    let back = parse_request(&wire).unwrap();
    assert_eq!(back.jsonrpc, "2.0");
    assert_eq!(back.method, "eth_getBlockByNumber");
    assert_eq!(back.id, "42");
    assert_eq!(back.params.len(), 4);
    assert!(matches!(&back.params[0], MultipleTypes::Str(s) if s == "latest"));
    assert!(matches!(&back.params[1], MultipleTypes::Bool(true)));
    assert!(matches!(&back.params[2], MultipleTypes::Str(s) if s == "x"));
    assert!(matches!(&back.params[3], MultipleTypes::Bool(false)));
}

#[test]
fn empty_params_round_trip() {
    let req = block_number_request();
    let wire = serialize_request(&req);
    let back = parse_request(&wire).unwrap();
    assert_eq!(back.method, "eth_blockNumber");
    assert_eq!(back.params.len(), 0);
}

#[test]
fn parse_request_rejects_malformed_payloads() {
    assert_eq!(parse_request("").unwrap_err(), DecodeError::Malformed);
    assert_eq!(parse_request("{}").unwrap_err(), DecodeError::Malformed);
    assert_eq!(
        parse_request("{\"jsonrpc\":\"2.0\",\"method\":\"m\",\"id\":\"1\",\"params\":[}")
            .unwrap_err(),
        DecodeError::Malformed
    );
    assert_eq!(
        parse_request("{\"jsonrpc\":\"2.0\",\"method\":\"m\",\"id\":\"1\",\"params\":[]}x")
            .unwrap_err(),
        DecodeError::Malformed
    );
}

#[test]
fn parse_response_example() {
    let resp = parse_response("{\"jsonrpc\":\"2.0\",\"id\":\"1\",\"result\":\"0x10d4f\"}").unwrap();
    assert_eq!(resp.jsonrpc, "2.0");
    assert_eq!(resp.id, "1");
    assert_eq!(resp.result, "0x10d4f");
    assert_eq!(resp.convert_result_from_hex(), Ok(68943));
}

#[test]
fn parse_response_rejects_malformed_payloads() {
    let r = parse_response("not json at all");
    assert!(matches!(r, Err(EnvelopeError::Decode(DecodeError::Malformed))));
    let r = parse_response("{\"jsonrpc\":\"2.0\",\"id\":\"1\"}");
    assert!(matches!(r, Err(EnvelopeError::Decode(DecodeError::Malformed))));
    let r = parse_response("{\"jsonrpc\":\"2.0\",\"id\":\"1\",\"result\":\"0x1\"} ");
    assert!(matches!(r, Err(EnvelopeError::Decode(DecodeError::Malformed))));
}

#[test]
fn parse_response_surfaces_server_error_objects() {
    let r = parse_response(
        "{\"jsonrpc\":\"2.0\",\"id\":\"1\",\"error\":{\"code\":-32601,\"message\":\"method not found\"}}",
    );
    match r {
        Err(EnvelopeError::Rpc(body)) => {
            assert_eq!(body.code, -32601);
            assert_eq!(body.message, "method not found");
        },
        _ => panic!("expected a server error"),
    }
}

#[test]
fn parse_response_server_error_with_positive_code() {
    let r = parse_response(
        "{\"jsonrpc\":\"2.0\",\"id\":\"9\",\"error\":{\"code\":3,\"message\":\"execution reverted\"}}",
    );
    match r {
        Err(EnvelopeError::Rpc(body)) => {
            assert_eq!(body.code, 3);
            assert_eq!(body.message, "execution reverted");
        },
        _ => panic!("expected a server error"),
    }
}

#[test]
fn response_round_trips_through_its_encoding() {
    let wire = "{\"jsonrpc\":\"2.0\",\"id\":\"7\",\"result\":\"0xff\"}";
    let resp: JsonRpcResponse = parse_response(wire).unwrap();
    assert_eq!(resp.id, "7");
    assert_eq!(resp.result, "0xff");
}

#[test]
fn json_safety_check_on_strings() {
    assert!(str_json_safe("eth_blockNumber"));
    assert!(str_json_safe(""));
    assert!(!str_json_safe("a\"b"));
    assert!(!str_json_safe("a\\b"));
    assert!(!str_json_safe("a\nb"));
}

#[test]
fn serialized_request_is_valid_json() {
    let req = latest_block_request();
    let wire = serialize_request(&req);
    let v: serde_json::Value = serde_json::from_str(&wire).unwrap();
    assert_eq!(v["jsonrpc"].as_str().unwrap(), "2.0");
    assert_eq!(v["method"].as_str().unwrap(), "eth_getBlockByNumber");
    assert_eq!(v["id"].as_str().unwrap(), "1");
    let params = v["params"].as_array().unwrap();
    assert_eq!(params.len(), 2);
    assert_eq!(params[0].as_str().unwrap(), "latest");
    assert_eq!(params[1].as_bool().unwrap(), true);
}
