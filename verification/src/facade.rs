//! The call facade: the fixed, named operations of the client.
//!
//! Each operation builds its request envelope and decodes the transport's
//! answer; the network round trip itself happens in the embedding program,
//! which passes the HTTP status and body (or the WebSocket frames) back
//! into the decision functions here.

use vstd::prelude::*;
use crate::envelope::{
    is_error_form, is_success_form, enc_request, parse_response, serialize_request, str_eq,
    DecodeError, EnvelopeError, ErrorBodyModel, JsonRpcRequest, MultipleTypes, ParamView,
    RequestModel, ResponseModel, RpcErrorBody,
};
use crate::quantity::{spec_decode_quantity, NumericDecodeError};
use crate::transport::{classify_status, spec_status_success, ConfigError, TransportError};

verus! {

/// Every failure the facade can surface, one variant per boundary of the
/// taxonomy: configuration, transport, envelope decoding, numeric
/// decoding, and a server-reported error.
#[derive(Debug)]
pub enum ClientError {
    Config(ConfigError),
    Transport(TransportError),
    Decode(DecodeError),
    NumericDecode(NumericDecodeError),
    Rpc(RpcErrorBody),
}

/// The request model of the `eth_blockNumber` call: no parameters.
pub open spec fn block_number_model() -> RequestModel {
    RequestModel {
        jsonrpc: "2.0"@,
        method: "eth_blockNumber"@,
        id: "1"@,
        params: Seq::<ParamView>::empty(),
    }
}

/// The request model of the `eth_getBlockByNumber` call for the latest
/// block, with full transaction objects.
pub open spec fn latest_block_model() -> RequestModel {
    RequestModel {
        jsonrpc: "2.0"@,
        method: "eth_getBlockByNumber"@,
        id: "1"@,
        params: seq![ParamView::Str("latest"@), ParamView::Bool(true)],
    }
}

proof fn lemma_literals_json_safe()
    ensures
        json_safe_lits(),
{
    reveal_strlit("2.0");
    reveal_strlit("1");
    reveal_strlit("eth_blockNumber");
    reveal_strlit("eth_getBlockByNumber");
    reveal_strlit("latest");
    assert forall|k: int| 0 <= k < "2.0"@.len() implies crate::envelope::json_safe_char(
        #[trigger] "2.0"@[k],
    ) by {}
    assert forall|k: int| 0 <= k < "1"@.len() implies crate::envelope::json_safe_char(
        #[trigger] "1"@[k],
    ) by {}
    assert forall|k: int| 0 <= k < "eth_blockNumber"@.len() implies crate::envelope::json_safe_char(
        #[trigger] "eth_blockNumber"@[k],
    ) by {}
    assert forall|k: int|
        0 <= k < "eth_getBlockByNumber"@.len() implies crate::envelope::json_safe_char(
        #[trigger] "eth_getBlockByNumber"@[k],
    ) by {}
    assert forall|k: int| 0 <= k < "latest"@.len() implies crate::envelope::json_safe_char(
        #[trigger] "latest"@[k],
    ) by {}
}

/// All the string constants the facade puts into envelopes are free of
/// characters that would need JSON escaping.
pub open spec fn json_safe_lits() -> bool {
    &&& crate::envelope::json_safe("2.0"@)
    &&& crate::envelope::json_safe("1"@)
    &&& crate::envelope::json_safe("eth_blockNumber"@)
    &&& crate::envelope::json_safe("eth_getBlockByNumber"@)
    &&& crate::envelope::json_safe("latest"@)
}

/// Build the `eth_blockNumber` request envelope.
pub fn block_number_request() -> (res: JsonRpcRequest)
    ensures
        res@ == block_number_model(),
        res@.wf(),
{
    let r = JsonRpcRequest {
        jsonrpc: String::from_str("2.0"),
        method: String::from_str("eth_blockNumber"),
        id: String::from_str("1"),
        params: Vec::new(),
    };
    proof {
        lemma_literals_json_safe();
        assert(r@.params =~= Seq::<ParamView>::empty());
        assert(r@ == block_number_model());
    }
    r
}

/// Build the `eth_getBlockByNumber` request envelope for the latest
/// block.
pub fn latest_block_request() -> (res: JsonRpcRequest)
    ensures
        res@ == latest_block_model(),
        res@.wf(),
{
    let mut params: Vec<MultipleTypes> = Vec::new();
    params.push(MultipleTypes::Str(String::from_str("latest")));
    params.push(MultipleTypes::Bool(true));
    let r = JsonRpcRequest {
        jsonrpc: String::from_str("2.0"),
        method: String::from_str("eth_getBlockByNumber"),
        id: String::from_str("1"),
        params,
    };
    proof {
        lemma_literals_json_safe();
        assert(r@.params =~= seq![ParamView::Str("latest"@), ParamView::Bool(true)]);
        assert(r@ == latest_block_model());
        assert forall|k: int| 0 <= k < r@.params.len() implies (#[trigger] r@.params[k]).wf() by {
            if k == 0 {
                assert(r@.params[k] == ParamView::Str("latest"@));
            } else {
                assert(r@.params[k] == ParamView::Bool(true));
            }
        }
    }
    r
}

/// The frame sent to subscribe to the latest block over an open streaming
/// connection: the serialized `eth_getBlockByNumber` request.
pub fn latest_block_frame() -> (res: String)
    ensures
        res@ == enc_request(latest_block_model()),
{
    let req = latest_block_request();
    serialize_request(&req)
}

/// What decoding a block-number response body comes to, given the parsed
/// success envelope: the id must match the originating request, then the
/// hex-encoded result is converted.
pub open spec fn spec_decode_block_number(m: ResponseModel, expected_id: Seq<char>) -> Result<
    i64,
    ClientError,
> {
    if m.id != expected_id {
        Err(ClientError::Decode(DecodeError::IdMismatch))
    } else {
        match spec_decode_quantity(m.result) {
            Ok(v) => Ok(v),
            Err(e) => Err(ClientError::NumericDecode(e)),
        }
    }
}

/// Decode the body of an `eth_blockNumber` response.
///
/// The canonical encoding of any success envelope decodes as
/// `spec_decode_block_number` says; a server error object surfaces as
/// `Rpc`; and a successful integer only ever comes from a well-formed
/// envelope whose id matches.
pub fn decode_block_number(body: &str, expected_id: &str) -> (res: Result<i64, ClientError>)
    ensures
        forall|m: ResponseModel|
            is_success_form(body@, m) ==> res == spec_decode_block_number(m, expected_id@),
        forall|ver: Seq<char>, id: Seq<char>, b: ErrorBodyModel|
            is_error_form(body@, ver, id, b) ==> (res matches Err(ClientError::Rpc(rb)) && rb@
                == b),
        res matches Ok(v) ==> exists|m: ResponseModel|
            is_success_form(body@, m) && m.id == expected_id@ && spec_decode_quantity(m.result)
                == Ok::<i64, NumericDecodeError>(v),
{
    match parse_response(body) {
        Ok(r) => {
            if !str_eq(r.id.as_str(), expected_id) {
                Err(ClientError::Decode(DecodeError::IdMismatch))
            } else {
                match r.convert_result_from_hex() {
                    Ok(v) => {
                        proof {
                            assert(is_success_form(body@, r@));
                        }
                        Ok(v)
                    },
                    Err(e) => Err(ClientError::NumericDecode(e)),
                }
            }
        },
        Err(EnvelopeError::Decode(d)) => Err(ClientError::Decode(d)),
        Err(EnvelopeError::Rpc(b)) => Err(ClientError::Rpc(b)),
    }
}

/// The outcome of one `eth_blockNumber` HTTP round trip, given the status
/// and body the transport returned. A non-success status is a transport
/// error and the body is never looked at, so no partially-decoded result
/// can escape.
pub fn fetch_block_number_outcome(status: u16, body: &str, expected_id: &str) -> (res: Result<
    i64,
    ClientError,
>)
    ensures
        !spec_status_success(status) ==> (res matches Err(e) && e == ClientError::Transport(
            TransportError::HttpStatus(status),
        )),
        spec_status_success(status) ==> (forall|m: ResponseModel|
            is_success_form(body@, m) ==> res == spec_decode_block_number(m, expected_id@)),
        spec_status_success(status) ==> (forall|
            ver: Seq<char>,
            id: Seq<char>,
            b: ErrorBodyModel,
        |
            is_error_form(body@, ver, id, b) ==> (res matches Err(ClientError::Rpc(rb)) && rb@
                == b)),
        res matches Ok(v) ==> spec_status_success(status) && exists|m: ResponseModel|
            is_success_form(body@, m) && m.id == expected_id@ && spec_decode_quantity(m.result)
                == Ok::<i64, NumericDecodeError>(v),
{
    match classify_status(status) {
        Err(e) => Err(ClientError::Transport(e)),
        Ok(_) => decode_block_number(body, expected_id),
    }
}

/// The outcome of one `eth_getBlockByNumber` HTTP round trip: on a
/// success status the body is handed back opaque and undecoded (the
/// result is a structured object, not a hex integer); any other status is
/// a transport error.
pub fn fetch_latest_block_outcome(status: u16, body: &str) -> (res: Result<String, ClientError>)
    ensures
        !spec_status_success(status) ==> (res matches Err(e) && e == ClientError::Transport(
            TransportError::HttpStatus(status),
        )),
        spec_status_success(status) ==> (res matches Ok(t) && t@ == body@),
{
    match classify_status(status) {
        Err(e) => Err(ClientError::Transport(e)),
        Ok(_) => Ok(String::from_str(body)),
    }
}

} // verus!
