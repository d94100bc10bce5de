//! The JSON-RPC 2.0 envelope model.
//!
//! Requests and responses travel as JSON objects in a canonical wire form:
//! no whitespace, the keys in protocol order, and string values restricted
//! to characters that need no JSON escaping. Serializing a request and
//! parsing a response (or a server error object) are verified against the
//! encoding functions defined here; parsing accepts exactly the canonical
//! form and round-trips every well-formed envelope.

use vstd::prelude::*;
use crate::quantity::{spec_decode_quantity, decode_quantity, NumericDecodeError};

verus! {

// ---------------------------------------------------------------------------
// Models
// ---------------------------------------------------------------------------
/// The mathematical value of one request parameter.
pub ghost enum ParamView {
    Str(Seq<char>),
    Bool(bool),
}

/// The mathematical value of a request envelope.
pub ghost struct RequestModel {
    pub jsonrpc: Seq<char>,
    pub method: Seq<char>,
    pub id: Seq<char>,
    pub params: Seq<ParamView>,
}

/// The mathematical value of a success response envelope.
pub ghost struct ResponseModel {
    pub jsonrpc: Seq<char>,
    pub id: Seq<char>,
    pub result: Seq<char>,
}

/// The mathematical value of a server error object.
pub ghost struct ErrorBodyModel {
    pub code: int,
    pub message: Seq<char>,
}

/// A character that may stand unescaped inside a JSON string.
pub open spec fn json_safe_char(c: char) -> bool {
    c != '"' && c != '\\' && (c as u32) >= 0x20
}

/// A string whose characters all may stand unescaped inside JSON.
pub open spec fn json_safe(s: Seq<char>) -> bool {
    forall|k: int| 0 <= k < s.len() ==> json_safe_char(#[trigger] s[k])
}

impl ParamView {
    pub open spec fn wf(self) -> bool {
        match self {
            ParamView::Str(s) => json_safe(s),
            ParamView::Bool(_) => true,
        }
    }
}

impl RequestModel {
    pub open spec fn wf(self) -> bool {
        &&& json_safe(self.jsonrpc)
        &&& json_safe(self.method)
        &&& json_safe(self.id)
        &&& forall|k: int| 0 <= k < self.params.len() ==> (#[trigger] self.params[k]).wf()
    }
}

impl ResponseModel {
    pub open spec fn wf(self) -> bool {
        json_safe(self.jsonrpc) && json_safe(self.id) && json_safe(self.result)
    }
}

impl ErrorBodyModel {
    pub open spec fn wf(self) -> bool {
        i64::MIN <= self.code <= i64::MAX && json_safe(self.message)
    }
}

// ---------------------------------------------------------------------------
// Envelope types
// ---------------------------------------------------------------------------
/// One positional request parameter: the closed variant set the target
/// methods use.
#[derive(Debug)]
pub enum MultipleTypes {
    Str(String),
    Bool(bool),
}

/// A JSON-RPC request envelope.
#[derive(Debug)]
pub struct JsonRpcRequest {
    pub jsonrpc: String,
    pub method: String,
    pub id: String,
    pub params: Vec<MultipleTypes>,
}

/// A JSON-RPC success response envelope; the result is carried as a raw
/// string.
#[derive(Debug)]
pub struct JsonRpcResponse {
    pub jsonrpc: String,
    pub id: String,
    pub result: String,
}

/// A server-reported JSON-RPC error: its code and message.
#[derive(Debug)]
pub struct RpcErrorBody {
    pub code: i64,
    pub message: String,
}

impl View for MultipleTypes {
    type V = ParamView;

    open spec fn view(&self) -> ParamView {
        match self {
            MultipleTypes::Str(s) => ParamView::Str(s@),
            MultipleTypes::Bool(b) => ParamView::Bool(*b),
        }
    }
}

impl View for JsonRpcRequest {
    type V = RequestModel;

    open spec fn view(&self) -> RequestModel {
        RequestModel {
            jsonrpc: self.jsonrpc@,
            method: self.method@,
            id: self.id@,
            params: self.params@.map_values(|p: MultipleTypes| p@),
        }
    }
}

impl View for JsonRpcResponse {
    type V = ResponseModel;

    open spec fn view(&self) -> ResponseModel {
        ResponseModel { jsonrpc: self.jsonrpc@, id: self.id@, result: self.result@ }
    }
}

impl View for RpcErrorBody {
    type V = ErrorBodyModel;

    open spec fn view(&self) -> ErrorBodyModel {
        ErrorBodyModel { code: self.code as int, message: self.message@ }
    }
}

// ---------------------------------------------------------------------------
// Errors
// ---------------------------------------------------------------------------
/// Failure to read a wire payload as an envelope.
#[derive(Clone, Copy, Debug, PartialEq, Eq, Structural)]
pub enum DecodeError {
    /// The payload is not a canonical envelope.
    Malformed,
    /// The response id does not match the originating request's id.
    IdMismatch,
}

/// The outcome of parsing a response payload that is not a success
/// envelope: either it is malformed, or the server answered with its error
/// object, which is surfaced as a distinct condition.
#[derive(Debug)]
pub enum EnvelopeError {
    Decode(DecodeError),
    Rpc(RpcErrorBody),
}

// ---------------------------------------------------------------------------
// The wire encoding
// ---------------------------------------------------------------------------
/// A JSON string: the content between double quotes.
pub open spec fn enc_string(s: Seq<char>) -> Seq<char> {
    seq!['"'] + s + seq!['"']
}

/// One encoded parameter.
pub open spec fn enc_param(p: ParamView) -> Seq<char> {
    match p {
        ParamView::Str(s) => enc_string(s),
        ParamView::Bool(b) => if b {
            "true"@
        } else {
            "false"@
        },
    }
}

/// A comma-separated parameter list.
pub open spec fn enc_params(ps: Seq<ParamView>) -> Seq<char>
    decreases ps.len(),
{
    if ps.len() == 0 {
        Seq::empty()
    } else if ps.len() == 1 {
        enc_param(ps[0])
    } else {
        enc_param(ps[0]) + seq![','] + enc_params(ps.drop_first())
    }
}

/// The canonical wire form of a request envelope.
pub open spec fn enc_request(m: RequestModel) -> Seq<char> {
    "{\"jsonrpc\":\""@ + m.jsonrpc + "\",\"method\":\""@ + m.method + "\",\"id\":\""@ + m.id
        + "\",\"params\":["@ + enc_params(m.params) + "]}"@
}

/// The canonical wire form of a success response envelope.
pub open spec fn enc_response(m: ResponseModel) -> Seq<char> {
    "{\"jsonrpc\":\""@ + m.jsonrpc + "\",\"id\":\""@ + m.id + "\",\"result\":\""@ + m.result
        + "\"}"@
}

/// The decimal digit character for a value in `0..10`.
pub open spec fn dec_char_of(d: int) -> char {
    if d == 0 {
        '0'
    } else if d == 1 {
        '1'
    } else if d == 2 {
        '2'
    } else if d == 3 {
        '3'
    } else if d == 4 {
        '4'
    } else if d == 5 {
        '5'
    } else if d == 6 {
        '6'
    } else if d == 7 {
        '7'
    } else if d == 8 {
        '8'
    } else {
        '9'
    }
}

/// The canonical decimal digits of a non-negative value.
pub open spec fn dec_digits(v: int) -> Seq<char>
    decreases v,
{
    if v < 10 {
        seq![dec_char_of(v)]
    } else {
        dec_digits(v / 10) + seq![dec_char_of(v % 10)]
    }
}

/// The canonical decimal encoding of an integer, with a `-` sign when
/// negative.
pub open spec fn enc_int(v: int) -> Seq<char> {
    if v < 0 {
        seq!['-'] + dec_digits(-v)
    } else {
        dec_digits(v)
    }
}

/// The canonical wire form of a server error response.
pub open spec fn enc_error_response(ver: Seq<char>, id: Seq<char>, b: ErrorBodyModel) -> Seq<
    char,
> {
    "{\"jsonrpc\":\""@ + ver + "\",\"id\":\""@ + id + "\",\"error\":{\"code\":"@ + enc_int(b.code)
        + ",\"message\":\""@ + b.message + "\"}}"@
}

// ---------------------------------------------------------------------------
// Exec helpers on strings and characters
// ---------------------------------------------------------------------------
fn json_safe_char_exec(c: char) -> (res: bool)
    ensures
        res == json_safe_char(c),
{
    c != '"' && c != '\\' && (c as u32) >= 0x20
}

/// Whether every character of a string may stand unescaped inside JSON.
pub fn str_json_safe(s: &str) -> (res: bool)
    ensures
        res == json_safe(s@),
{
    let n = s.unicode_len();
    let mut i: usize = 0;
    while i < n
        invariant
            i <= n,
            n == s@.len(),
            forall|k: int| 0 <= k < i ==> json_safe_char(#[trigger] s@[k]),
        decreases n - i,
    {
        if !json_safe_char_exec(s.get_char(i)) {
            return false;
        }
        i += 1;
    }
    true
}

/// Character-for-character string equality.
pub fn str_eq(a: &str, b: &str) -> (res: bool)
    ensures
        res == (a@ == b@),
{
    let na = a.unicode_len();
    let nb = b.unicode_len();
    if na != nb {
        proof {
            if a@ == b@ {
                assert(a@.len() == b@.len());
            }
        }
        return false;
    }
    let mut i: usize = 0;
    while i < na
        invariant
            i <= na,
            na == a@.len(),
            na == b@.len(),
            forall|k: int| 0 <= k < i ==> a@[k] == b@[k],
        decreases na - i,
    {
        if a.get_char(i) != b.get_char(i) {
            proof {
                if a@ == b@ {
                    assert(a@[i as int] == b@[i as int]);
                }
            }
            return false;
        }
        i += 1;
    }
    proof {
        assert(a@ =~= b@);
    }
    true
}

/// Whether a request is well formed, so that it can be serialized.
pub fn request_wf(req: &JsonRpcRequest) -> (res: bool)
    ensures
        res == req@.wf(),
{
    if !str_json_safe(req.jsonrpc.as_str()) {
        return false;
    }
    if !str_json_safe(req.method.as_str()) {
        return false;
    }
    if !str_json_safe(req.id.as_str()) {
        return false;
    }
    let n = req.params.len();
    let mut i: usize = 0;
    while i < n
        invariant
            i <= n,
            n == req.params@.len(),
            json_safe(req@.jsonrpc),
            json_safe(req@.method),
            json_safe(req@.id),
            forall|k: int| 0 <= k < i ==> (#[trigger] req@.params[k]).wf(),
        decreases n - i,
    {
        proof {
            assert(req@.params[i as int] == req.params@[i as int]@);
        }
        match &req.params[i] {
            MultipleTypes::Str(sp) => {
                if !str_json_safe(sp.as_str()) {
                    return false;
                }
            },
            MultipleTypes::Bool(_) => {},
        }
        i += 1;
    }
    proof {
        assert(req@.params.len() == n);
    }
    true
}

// ---------------------------------------------------------------------------
// Serialization
// ---------------------------------------------------------------------------
/// Appending one more parameter to an encoded list inserts one comma.
proof fn lemma_enc_params_app(a: Seq<ParamView>, b: Seq<ParamView>)
    requires
        a.len() > 0,
        b.len() > 0,
    ensures
        enc_params(a + b) == enc_params(a) + seq![','] + enc_params(b),
    decreases a.len(),
{
    let ab = a + b;
    assert(ab[0] == a[0]);
    if a.len() == 1 {
        assert(ab.drop_first() =~= b);
        assert(enc_params(a) == enc_param(a[0]));
    } else {
        assert(ab.drop_first() =~= a.drop_first() + b);
        lemma_enc_params_app(a.drop_first(), b);
        assert(enc_param(a[0]) + seq![','] + (enc_params(a.drop_first()) + seq![',']
            + enc_params(b)) =~= (enc_param(a[0]) + seq![','] + enc_params(a.drop_first()))
            + seq![','] + enc_params(b));
    }
}

/// Serialize a well-formed request to its canonical wire form.
pub fn serialize_request(req: &JsonRpcRequest) -> (res: String)
    requires
        req@.wf(),
    ensures
        res@ == enc_request(req@),
{
    let mut out = String::from_str("{\"jsonrpc\":\"");
    out.append(req.jsonrpc.as_str());
    out.append("\",\"method\":\"");
    out.append(req.method.as_str());
    out.append("\",\"id\":\"");
    out.append(req.id.as_str());
    out.append("\",\"params\":[");
    let ghost pre = out@;
    let n = req.params.len();
    let mut k: usize = 0;
    while k < n
        invariant
            n == req.params@.len(),
            n == req@.params.len(),
            k <= n,
            req@.wf(),
            out@ == pre + enc_params(req@.params.take(k as int)),
        decreases n - k,
    {
        let ghost ps = req@.params;
        if k > 0 {
            proof {
                reveal_strlit(",");
            }
            out.append(",");
        }
        proof {
            assert(req@.params[k as int] == req.params@[k as int]@);
        }
        match &req.params[k] {
            MultipleTypes::Str(sp) => {
                proof {
                    reveal_strlit("\"");
                }
                out.append("\"");
                out.append(sp.as_str());
                out.append("\"");
                proof {
                    assert(enc_param(ps[k as int]) =~= seq!['"'] + sp@ + seq!['"']);
                }
            },
            MultipleTypes::Bool(b) => {
                if *b {
                    out.append("true");
                } else {
                    out.append("false");
                }
            },
        }
        proof {
            assert(ps.take(k + 1) =~= ps.take(k as int) + seq![ps[k as int]]);
            assert(enc_params(seq![ps[k as int]]) == enc_param(ps[k as int]));
            if k == 0 {
                assert(ps.take(1)[0] == ps[0]);
                assert(enc_params(ps.take(1)) == enc_param(ps[0]));
                assert(out@ =~= pre + enc_params(ps.take(k + 1)));
            } else {
                lemma_enc_params_app(ps.take(k as int), seq![ps[k as int]]);
                assert(out@ =~= pre + enc_params(ps.take(k + 1)));
            }
        }
        k += 1;
    }
    out.append("]}");
    proof {
        assert(req@.params.take(n as int) =~= req@.params);
        assert(out@ =~= enc_request(req@));
    }
    out
}

// ---------------------------------------------------------------------------
// Parsing helpers
// ---------------------------------------------------------------------------
/// Match an exact literal at position `i`; `Some` exactly when it is there.
fn expect_lit(s: &str, i: usize, lit: &str) -> (res: Option<usize>)
    requires
        i <= s@.len(),
    ensures
        res matches Some(j) ==> i + lit@.len() <= s@.len() && j == i + lit@.len()
            && s@.subrange(i as int, j as int) == lit@,
        res is None ==> !(i + lit@.len() <= s@.len() && s@.subrange(
            i as int,
            i + lit@.len(),
        ) == lit@),
{
    let n = s.unicode_len();
    let m = lit.unicode_len();
    if m > n - i {
        return None;
    }
    let mut k: usize = 0;
    while k < m
        invariant
            i + m <= n,
            n == s@.len(),
            m == lit@.len(),
            k <= m,
            forall|p: int| 0 <= p < k ==> s@[i + p] == lit@[p],
        decreases m - k,
    {
        if s.get_char(i + k) != lit.get_char(k) {
            proof {
                if s@.subrange(i as int, i + lit@.len()) == lit@ {
                    assert(s@.subrange(i as int, i + lit@.len())[k as int] == lit@[k as int]);
                    assert(s@[i + k] == lit@[k as int]);
                }
            }
            return None;
        }
        k += 1;
    }
    proof {
        assert(s@.subrange(i as int, i + lit@.len()) =~= lit@);
    }
    Some(i + m)
}

/// Read a JSON string body starting at `i`: unescaped characters up to and
/// including the closing quote. `Some` exactly when a quote-terminated safe
/// run starts at `i`, and then the content is the run up to the first quote.
fn parse_string(s: &str, i: usize) -> (res: Option<(String, usize)>)
    requires
        i <= s@.len(),
    ensures
        res matches Some(p) ==> i < p.1 <= s@.len() && p.1 == i + p.0@.len() + 1 && p.0@ == s@
            .subrange(i as int, p.1 - 1) && json_safe(p.0@) && s@[p.1 - 1] == '"',
        forall|t: Seq<char>|
            json_safe(t) && i + t.len() < s@.len() && s@.subrange(i as int, i + t.len()) == t
                && s@[i + t.len()] == '"' ==> (res matches Some(p) && p.0@ == t && p.1 == i
                + t.len() + 1),
{
    let n = s.unicode_len();
    let mut j = i;
    while j < n
        invariant
            i <= j <= n,
            n == s@.len(),
            forall|p: int| i <= p < j ==> json_safe_char(#[trigger] s@[p]) && s@[p] != '"',
        decreases n - j,
    {
        let c = s.get_char(j);
        if c == '"' {
            let content = s.substring_char(i, j);
            let t = String::from_str(content);
            proof {
                assert(t@ == s@.subrange(i as int, j as int));
                assert forall|k: int| 0 <= k < t@.len() implies json_safe_char(
                    #[trigger] t@[k],
                ) by {
                    assert(t@[k] == s@[i + k]);
                }
                assert forall|tt: Seq<char>|
                    json_safe(tt) && i + tt.len() < s@.len() && s@.subrange(
                        i as int,
                        i + tt.len(),
                    ) == tt && s@[i + tt.len()] == '"' implies tt == t@ && tt.len() == j
                    - i by {
                    if i + tt.len() < j {
                        assert(json_safe_char(s@[i + tt.len()]));
                        assert(false);
                    } else if i + tt.len() > j {
                        assert(tt[j - i] == s@.subrange(i as int, i + tt.len())[j - i]);
                        assert(tt[j - i] == s@[j as int]);
                        assert(json_safe_char(tt[j - i]));
                        assert(false);
                    }
                    assert(tt =~= t@);
                }
            }
            return Some((t, j + 1));
        }
        if !json_safe_char_exec(c) {
            proof {
                assert forall|tt: Seq<char>|
                    json_safe(tt) && i + tt.len() < s@.len() && s@.subrange(
                        i as int,
                        i + tt.len(),
                    ) == tt && s@[i + tt.len()] == '"' implies false by {
                    if i + tt.len() < j {
                        assert(json_safe_char(s@[i + tt.len()]));
                    } else if i + tt.len() == j {
                        assert(s@[j as int] == '"');
                    } else {
                        assert(tt[j - i] == s@.subrange(i as int, i + tt.len())[j - i]);
                        assert(tt[j - i] == s@[j as int]);
                        assert(json_safe_char(tt[j - i]));
                    }
                }
            }
            return None;
        }
        j += 1;
    }
    proof {
        assert forall|tt: Seq<char>|
            json_safe(tt) && i + tt.len() < s@.len() && s@.subrange(i as int, i + tt.len())
                == tt && s@[i + tt.len()] == '"' implies false by {
            assert(json_safe_char(s@[i + tt.len()]) && s@[i + tt.len()] != '"');
        }
    }
    None
}

// ---------------------------------------------------------------------------
// Decimal integers (the server error object's code)
// ---------------------------------------------------------------------------
pub open spec fn is_dec_digit(c: char) -> bool {
    (('0' as u32) <= (c as u32)) && ((c as u32) <= ('9' as u32))
}

pub open spec fn dec_digit_val(c: char) -> int {
    (c as u32) - ('0' as u32)
}

pub open spec fn all_dec_digits(s: Seq<char>) -> bool {
    forall|k: int| 0 <= k < s.len() ==> is_dec_digit(#[trigger] s[k])
}

/// The numeric value of a sequence of decimal digits, most significant
/// first.
pub open spec fn dec_value(s: Seq<char>) -> int
    decreases s.len(),
{
    if s.len() == 0 {
        0
    } else {
        dec_value(s.drop_last()) * 10 + dec_digit_val(s.last())
    }
}

proof fn lemma_dec_value_nonneg(s: Seq<char>)
    requires
        all_dec_digits(s),
    ensures
        dec_value(s) >= 0,
    decreases s.len(),
{
    if s.len() > 0 {
        assert forall|k: int| 0 <= k < s.drop_last().len() implies is_dec_digit(
            #[trigger] s.drop_last()[k],
        ) by {
            assert(s.drop_last()[k] == s[k]);
        }
        lemma_dec_value_nonneg(s.drop_last());
        assert(is_dec_digit(s[s.len() - 1]));
    }
}

proof fn lemma_dec_value_take_le(s: Seq<char>, i: int)
    requires
        all_dec_digits(s),
        0 <= i <= s.len(),
    ensures
        dec_value(s.take(i)) <= dec_value(s),
    decreases s.len() - i,
{
    if i == s.len() {
        assert(s.take(i) =~= s);
    } else {
        let t = s.take(i + 1);
        assert(t.drop_last() =~= s.take(i));
        assert(t.last() == s[i]);
        assert forall|k: int| 0 <= k < s.take(i).len() implies is_dec_digit(
            #[trigger] s.take(i)[k],
        ) by {
            assert(s.take(i)[k] == s[k]);
        }
        lemma_dec_value_nonneg(s.take(i));
        assert(is_dec_digit(s[i]));
        assert(dec_value(t) == dec_value(s.take(i)) * 10 + dec_digit_val(s[i]));
        lemma_dec_value_take_le(s, i + 1);
    }
}

/// The canonical digits of a non-negative value decode back to it and
/// carry no leading zero.
proof fn lemma_dec_digits_props(v: int)
    requires
        v >= 0,
    ensures
        dec_digits(v).len() >= 1,
        all_dec_digits(dec_digits(v)),
        dec_value(dec_digits(v)) == v,
        v > 0 ==> dec_digits(v)[0] != '0',
        v < 10 ==> dec_digits(v).len() == 1,
    decreases v,
{
    if v < 10 {
        let w = dec_digits(v);
        assert(w == seq![dec_char_of(v)]);
        assert(w.drop_last() =~= Seq::<char>::empty());
        assert(dec_value(Seq::<char>::empty()) == 0);
        assert(w.last() == dec_char_of(v));
        assert(dec_value(w) == dec_value(w.drop_last()) * 10 + dec_digit_val(w.last()));
        assert(dec_digit_val(dec_char_of(v)) == v);
        assert(is_dec_digit(dec_char_of(v)));
        assert(w[0] == dec_char_of(v));
        assert(dec_value(w) == v);
    } else {
        lemma_dec_digits_props(v / 10);
        let a = dec_digits(v / 10);
        let w = dec_digits(v);
        assert(w == a + seq![dec_char_of(v % 10)]);
        assert(w.drop_last() =~= a);
        assert(w.last() == dec_char_of(v % 10));
        assert(dec_digit_val(dec_char_of(v % 10)) == v % 10);
        assert(dec_value(w) == dec_value(a) * 10 + v % 10);
        assert forall|k: int| 0 <= k < w.len() implies is_dec_digit(#[trigger] w[k]) by {
            if k < a.len() {
                assert(w[k] == a[k]);
            } else {
                assert(w[k] == dec_char_of(v % 10));
            }
        }
        assert(w[0] == a[0]);
    }
}

/// A canonical digit string with a nonzero leading digit has a value of at
/// least one, and at least ten when it has two or more digits.
proof fn lemma_dec_value_lower(s: Seq<char>)
    requires
        all_dec_digits(s),
        s.len() >= 1,
        s[0] != '0',
    ensures
        dec_value(s) >= 1,
        s.len() >= 2 ==> dec_value(s) >= 10,
    decreases s.len(),
{
    if s.len() == 1 {
        assert(is_dec_digit(s[0]));
        if dec_digit_val(s[0]) == 0 {
            vstd::utf8::char_u32_cast(s[0], s[0] as u32);
            vstd::utf8::char_u32_cast('0', '0' as u32);
            assert((s[0] as u32) == ('0' as u32));
            assert(s[0] == '0');
        }
        assert(dec_digit_val(s[0]) >= 1);
        assert(s.drop_last().len() == 0);
        assert(dec_value(s.drop_last()) == 0);
        assert(s.last() == s[0]);
        assert(dec_value(s) == dec_value(s.drop_last()) * 10 + dec_digit_val(s.last()));
    } else {
        assert forall|k: int| 0 <= k < s.drop_last().len() implies is_dec_digit(
            #[trigger] s.drop_last()[k],
        ) by {
            assert(s.drop_last()[k] == s[k]);
        }
        assert(s.drop_last()[0] == s[0]);
        lemma_dec_value_lower(s.drop_last());
        assert(is_dec_digit(s[s.len() - 1]));
    }
}

/// A decimal digit character is recovered from its value.
proof fn lemma_dec_digit_char(c: char)
    requires
        is_dec_digit(c),
    ensures
        dec_char_of(dec_digit_val(c)) == c,
{
    let v = dec_digit_val(c);
    assert(0 <= v <= 9);
    assert((dec_char_of(v) as u32) == 48 + v);
    vstd::utf8::char_u32_cast(c, c as u32);
    vstd::utf8::char_u32_cast(dec_char_of(v), dec_char_of(v) as u32);
    assert((c as u32) == 48 + v);
}

/// A canonical decimal digit string is the canonical encoding of its own
/// value.
proof fn lemma_dec_digits_reconstruct(t: Seq<char>)
    requires
        all_dec_digits(t),
        t.len() >= 1,
        t.len() > 1 ==> t[0] != '0',
    ensures
        dec_value(t) >= 0,
        dec_digits(dec_value(t)) == t,
    decreases t.len(),
{
    lemma_dec_value_nonneg(t);
    let v = dec_value(t);
    if t.len() == 1 {
        assert(t.drop_last() =~= Seq::<char>::empty());
        assert(dec_value(Seq::<char>::empty()) == 0);
        assert(t.last() == t[0]);
        assert(dec_value(t) == dec_value(t.drop_last()) * 10 + dec_digit_val(t.last()));
        assert(is_dec_digit(t[0]));
        assert(v == dec_digit_val(t[0]));
        assert(v < 10);
        lemma_dec_digit_char(t[0]);
        assert(dec_char_of(v) == t[0]);
        assert(dec_digits(v) =~= t);
    } else {
        let a = t.drop_last();
        assert forall|k: int| 0 <= k < a.len() implies is_dec_digit(#[trigger] a[k]) by {
            assert(a[k] == t[k]);
        }
        assert(a[0] == t[0]);
        lemma_dec_value_lower(a);
        lemma_dec_digits_reconstruct(a);
        let vp = dec_value(a);
        let d = dec_digit_val(t.last());
        assert(is_dec_digit(t[t.len() - 1]));
        lemma_dec_digit_char(t.last());
        assert(v == vp * 10 + d);
        assert(v >= 10);
        assert(v / 10 == vp && v % 10 == d) by (nonlinear_arith)
            requires
                v == vp * 10 + d,
                0 <= d < 10,
                vp >= 0,
        ;
        assert(dec_digits(v) == dec_digits(vp) + seq![dec_char_of(d)]);
        assert(dec_char_of(d) == t.last());
        assert(dec_digits(v) =~= t);
    }
}

/// The canonical encoding of an integer is nonempty, and starts with a
/// digit exactly when the integer is non-negative.
proof fn lemma_enc_int_shape(v: int)
    ensures
        enc_int(v).len() >= 1,
        v >= 0 ==> enc_int(v) == dec_digits(v),
        v < 0 ==> enc_int(v)[0] == '-' && enc_int(v).skip(1) == dec_digits(-v),
{
    if v < 0 {
        lemma_dec_digits_props(-v);
        assert(enc_int(v).skip(1) =~= dec_digits(-v));
    } else {
        lemma_dec_digits_props(v);
    }
}

/// Read a canonical decimal integer (optional `-`, no leading zeros, value
/// within `i64`) at position `i`, stopping before the first non-digit.
fn parse_int(s: &str, i: usize) -> (res: Option<(i64, usize)>)
    requires
        i <= s@.len(),
    ensures
        res matches Some(p) ==> i < p.1 <= s@.len() && s@.subrange(i as int, p.1 as int)
            == enc_int(p.0 as int),
        forall|v: i64, j: int|
            i <= j <= s@.len() && s@.subrange(i as int, j) == enc_int(v as int) && (j == s@.len()
                || !is_dec_digit(s@[j])) ==> (res matches Some(p) && p.0 == v && p.1 == j),
{
    let n = s.unicode_len();
    if i >= n {
        proof {
            assert forall|v: i64, j: int|
                i <= j <= s@.len() && s@.subrange(i as int, j) == enc_int(v as int) && (j
                    == s@.len() || !is_dec_digit(s@[j])) implies false by {
                lemma_enc_int_shape(v as int);
                assert(j - i == enc_int(v as int).len());
            }
        }
        return None;
    }
    let neg = s.get_char(i) == '-';
    let start = if neg { i + 1 } else { i };
    let limit: u64 = if neg { 9223372036854775808u64 } else { 9223372036854775807u64 };
    let ghost gdigs: Seq<char> = Seq::empty();
    let mut j = start;
    let mut acc: u64 = 0;
    let mut overflowed = false;
    // The run of digits ends where the input ends, a non-digit follows,
    // or the accumulated value leaves the representable range.
    loop
        invariant_except_break
            !overflowed,
            acc <= limit,
            acc == dec_value(s@.subrange(start as int, j as int)),
        invariant
            i <= start <= j <= n,
            n == s@.len(),
            start == if neg { i + 1int } else { i as int },
            neg ==> i < n && s@[i as int] == '-',
            !neg ==> (i < n && s@[i as int] != '-'),
            limit == if neg { 9223372036854775808u64 } else { 9223372036854775807u64 },
            forall|k: int| start <= k < j ==> is_dec_digit(#[trigger] s@[k]),
        ensures
            i <= start <= j <= n,
            n == s@.len(),
            forall|k: int| start <= k < j ==> is_dec_digit(#[trigger] s@[k]),
            !overflowed ==> acc <= limit && acc == dec_value(s@.subrange(start as int, j as int)),
            overflowed ==> dec_value(s@.subrange(start as int, j as int)) > limit && j > start,
            j == n || overflowed || !is_dec_digit(s@[j as int]),
        decreases n - j,
    {
        if j >= n {
            break;
        }
        let c = s.get_char(j);
        if !(48 <= (c as u32) && (c as u32) <= 57) {
            proof {
                assert(!is_dec_digit(s@[j as int]));
            }
            break;
        }
        let d = ((c as u32) - 48) as u64;
        proof {
            assert(is_dec_digit(s@[j as int]));
            let t = s@.subrange(start as int, j + 1);
            assert(t.drop_last() =~= s@.subrange(start as int, j as int));
            assert(t.last() == s@[j as int]);
            assert(dec_value(t) == acc * 10 + dec_digit_val(s@[j as int]));
        }
        if acc > (limit - d) / 10 {
            proof {
                let t = s@.subrange(start as int, j + 1);
                assert(acc * 10 + d > limit) by (nonlinear_arith)
                    requires
                        acc > (limit - d) / 10,
                        0 <= d <= 9,
                        d <= limit,
                        acc >= 0,
                ;
                assert(dec_value(t) > limit);
            }
            overflowed = true;
            j += 1;
            break;
        }
        proof {
            assert(acc * 10 + d <= limit) by (nonlinear_arith)
                requires
                    acc <= (limit - d) / 10,
                    0 <= d <= 9,
                    d <= limit,
                    acc >= 0,
            ;
        }
        acc = acc * 10 + d;
        j += 1;
    }
    if j == start {
        proof {
            assert forall|v: i64, jv: int|
                i <= jv <= s@.len() && s@.subrange(i as int, jv) == enc_int(v as int) && (jv
                    == s@.len() || !is_dec_digit(s@[jv])) implies false by {
                lemma_enc_int_shape(v as int);
                let e = enc_int(v as int);
                assert(jv - i == e.len());
                if (v as int) < 0 {
                    assert(s@[i as int] == e[0]);
                    lemma_dec_digits_props(-(v as int));
                    assert(e.len() >= 2);
                    assert(s@[start as int] == e[1]);
                    assert(e[1] == dec_digits(-(v as int))[0]);
                    assert(is_dec_digit(s@[start as int]));
                } else {
                    assert(s@[i as int] == e[0]);
                    lemma_dec_digits_props(v as int);
                    assert(is_dec_digit(e[0]));
                    if neg {
                        assert(s@[i as int] == '-');
                        assert(!is_dec_digit('-'));
                    } else {
                        assert(is_dec_digit(s@[start as int]));
                    }
                }
                assert(start < n && is_dec_digit(s@[start as int]));
                assert(start < j);
            }
        }
        return None;
    }
    let ghost run = s@.subrange(start as int, j as int);
    proof {
        assert forall|k: int| 0 <= k < run.len() implies is_dec_digit(#[trigger] run[k]) by {
            assert(run[k] == s@[start + k]);
        }
    }
    // For every candidate reading, the digit run must be this maximal run.
    proof {
        assert forall|v: i64, jv: int|
            i <= jv <= s@.len() && s@.subrange(i as int, jv) == enc_int(v as int) && (jv
                == s@.len() || !is_dec_digit(s@[jv])) implies ((v as int) < 0 <==> neg) && jv == j
            && s@.subrange(start as int, jv) == dec_digits(
            if (v as int) < 0 {
                -(v as int)
            } else {
                v as int
            },
        ) by {
            lemma_enc_int_shape(v as int);
            let e = enc_int(v as int);
            assert(jv - i == e.len());
            if (v as int) < 0 {
                assert(s@[i as int] == e[0] && e[0] == '-');
                assert(neg);
            } else {
                lemma_dec_digits_props(v as int);
                assert(s@[i as int] == e[0]);
                assert(is_dec_digit(e[0]));
                assert(!neg);
            }
            let m = if (v as int) < 0 { -(v as int) } else { v as int };
            lemma_dec_digits_props(m);
            let dd = dec_digits(m);
            assert(s@.subrange(start as int, jv) =~= dd);
            // jv and j delimit the same maximal digit run from `start`.
            assert forall|k: int| start <= k < jv implies is_dec_digit(#[trigger] s@[k]) by {
                assert(s@[k] == dd[k - start]);
            }
            if jv < j {
                assert(is_dec_digit(s@[jv]));
                assert(false);
            }
            if j < jv {
                assert(is_dec_digit(s@[j as int]));
                assert(j != n);
                assert(!overflowed) by {
                    if overflowed {
                        lemma_dec_value_take_le(s@.subrange(start as int, jv), j - start);
                        assert(s@.subrange(start as int, jv).take(j - start) =~= s@.subrange(
                            start as int,
                            j as int,
                        ));
                        assert(dec_value(dd) == m);
                        assert(m > limit);
                        if (v as int) < 0 {
                            assert(m <= 9223372036854775808);
                        } else {
                            assert(m <= 9223372036854775807);
                        }
                    }
                }
                assert(false);
            }
        }
    }
    if overflowed {
        proof {
            assert forall|v: i64, jv: int|
                i <= jv <= s@.len() && s@.subrange(i as int, jv) == enc_int(v as int) && (jv
                    == s@.len() || !is_dec_digit(s@[jv])) implies false by {
                let m = if (v as int) < 0 { -(v as int) } else { v as int };
                lemma_dec_digits_props(m);
                assert(s@.subrange(start as int, j as int) =~= dec_digits(m));
                assert(dec_value(dec_digits(m)) == m);
                assert(m > limit);
                if (v as int) < 0 {
                    assert(m <= 9223372036854775808);
                } else {
                    assert(m <= 9223372036854775807);
                }
            }
        }
        return None;
    }
    let first = s.get_char(start);
    if j - start > 1 && first == '0' {
        proof {
            assert forall|v: i64, jv: int|
                i <= jv <= s@.len() && s@.subrange(i as int, jv) == enc_int(v as int) && (jv
                    == s@.len() || !is_dec_digit(s@[jv])) implies false by {
                let m = if (v as int) < 0 { -(v as int) } else { v as int };
                lemma_dec_digits_props(m);
                assert(s@.subrange(start as int, j as int) =~= dec_digits(m));
                assert(dec_digits(m)[0] == s@[start as int]);
                assert(m < 10);
                assert(dec_digits(m).len() == 1);
            }
        }
        return None;
    }
    if neg && acc == 0 {
        proof {
            assert forall|v: i64, jv: int|
                i <= jv <= s@.len() && s@.subrange(i as int, jv) == enc_int(v as int) && (jv
                    == s@.len() || !is_dec_digit(s@[jv])) implies false by {
                assert((v as int) < 0);
                let m = -(v as int);
                lemma_dec_digits_props(m);
                assert(s@.subrange(start as int, j as int) =~= dec_digits(m));
                assert(dec_value(dec_digits(m)) == m);
                assert(m >= 1);
                assert(acc == dec_value(s@.subrange(start as int, j as int)));
            }
        }
        return None;
    }
    proof {
        assert(run.len() >= 1);
        assert(run.len() > 1 ==> run[0] != '0') by {
            assert(run[0] == s@[start as int]);
        }
        lemma_dec_digits_reconstruct(run);
        assert(dec_digits(acc as int) == run);
    }
    let val: i64 = if neg {
        if acc == 9223372036854775808u64 {
            i64::MIN
        } else {
            -(acc as i64)
        }
    } else {
        acc as i64
    };
    proof {
        let m = if (val as int) < 0 { -(val as int) } else { val as int };
        assert(m == acc);
        if neg {
            assert(enc_int(val as int) == seq!['-'] + dec_digits(m));
            assert(s@.subrange(i as int, j as int) =~= seq!['-'] + run);
        } else {
            assert(enc_int(val as int) == dec_digits(m));
        }
        assert(s@.subrange(i as int, j as int) == enc_int(val as int));
        // Every candidate reading has this value: its digit run equals the
        // maximal run, so the magnitudes and signs agree.
        assert forall|v: i64, jv: int|
            i <= jv <= s@.len() && s@.subrange(i as int, jv) == enc_int(v as int) && (jv
                == s@.len() || !is_dec_digit(s@[jv])) implies v == val && jv == j by {
            let mv = if (v as int) < 0 { -(v as int) } else { v as int };
            lemma_dec_digits_props(mv);
            assert(s@.subrange(start as int, j as int) =~= dec_digits(mv));
            assert(dec_value(dec_digits(mv)) == mv);
            assert(mv == acc);
        }
    }
    Some((val, j))
}

// ---------------------------------------------------------------------------
// Response parsing
// ---------------------------------------------------------------------------
/// The payload is the canonical encoding of the success envelope `m`.
pub open spec fn is_success_form(s: Seq<char>, m: ResponseModel) -> bool {
    m.wf() && s == enc_response(m)
}

/// The payload is the canonical encoding of a server error with body `b`.
pub open spec fn is_error_form(s: Seq<char>, ver: Seq<char>, id: Seq<char>, b: ErrorBodyModel) -> bool {
    json_safe(ver) && json_safe(id) && b.wf() && s == enc_error_response(ver, id, b)
}

/// Where each piece of a success envelope lies in its encoding.
proof fn lemma_response_shape(s: Seq<char>, m: ResponseModel)
    requires
        s == enc_response(m),
    ensures
        s.len() == 34 + (m.jsonrpc.len() as int) + (m.id.len() as int) + (m.result.len() as int),
        s.subrange(0, 12) == "{\"jsonrpc\":\""@,
        s.subrange(12, 12 + (m.jsonrpc.len() as int)) == m.jsonrpc,
        s[12 + (m.jsonrpc.len() as int)] == '"',
        s.subrange(13 + (m.jsonrpc.len() as int), 20 + (m.jsonrpc.len() as int)) == ",\"id\":\""@,
        s.subrange(20 + (m.jsonrpc.len() as int), 20 + (m.jsonrpc.len() as int) + (m.id.len() as int)) == m.id,
        s[20 + (m.jsonrpc.len() as int) + (m.id.len() as int)] == '"',
        s.subrange(21 + (m.jsonrpc.len() as int) + (m.id.len() as int), 32 + (m.jsonrpc.len() as int) + (m.id.len() as int))
            == ",\"result\":\""@,
        s.subrange(
            32 + (m.jsonrpc.len() as int) + (m.id.len() as int),
            32 + (m.jsonrpc.len() as int) + (m.id.len() as int) + (m.result.len() as int),
        ) == m.result,
        s[32 + (m.jsonrpc.len() as int) + (m.id.len() as int) + (m.result.len() as int)] == '"',
        s[33 + (m.jsonrpc.len() as int) + (m.id.len() as int) + (m.result.len() as int)] == '}',
{
    reveal_strlit("{\"jsonrpc\":\"");
    reveal_strlit("\",\"id\":\"");
    reveal_strlit("\",\"result\":\"");
    reveal_strlit("\"}");
    reveal_strlit(",\"id\":\"");
    reveal_strlit(",\"result\":\"");
    let jl = m.jsonrpc.len() as int;
    let il = m.id.len() as int;
    let rl = m.result.len() as int;
    assert(s.subrange(0, 12) =~= "{\"jsonrpc\":\""@);
    assert(s.subrange(12, 12 + jl) =~= m.jsonrpc);
    assert(s.subrange(12 + jl, 20 + jl) =~= "\",\"id\":\""@);
    assert(s[12 + jl] == '"');
    assert(s.subrange(13 + jl, 20 + jl) =~= ",\"id\":\""@);
    assert(s.subrange(20 + jl, 20 + jl + il) =~= m.id);
    assert(s.subrange(20 + jl + il, 32 + jl + il) =~= "\",\"result\":\""@);
    assert(s[20 + jl + il] == '"');
    assert(s.subrange(21 + jl + il, 32 + jl + il) =~= ",\"result\":\""@);
    assert(s.subrange(32 + jl + il, 32 + jl + il + rl) =~= m.result);
    assert(s[32 + jl + il + rl] == '"');
    assert(s[33 + jl + il + rl] == '}');
}

/// The pieces of a success envelope, laid end to end, are its encoding.
proof fn lemma_response_assemble(s: Seq<char>, jv: Seq<char>, idv: Seq<char>, rv: Seq<char>)
    requires
        s.len() == 34 + (jv.len() as int) + (idv.len() as int) + (rv.len() as int),
        s.subrange(0, 12) == "{\"jsonrpc\":\""@,
        s.subrange(12, 12 + (jv.len() as int)) == jv,
        s[12 + (jv.len() as int)] == '"',
        s.subrange(13 + (jv.len() as int), 20 + (jv.len() as int)) == ",\"id\":\""@,
        s.subrange(20 + (jv.len() as int), 20 + (jv.len() as int) + (idv.len() as int)) == idv,
        s[20 + (jv.len() as int) + (idv.len() as int)] == '"',
        s.subrange(21 + (jv.len() as int) + (idv.len() as int), 32 + (jv.len() as int) + (idv.len() as int)) == ",\"result\":\""@,
        s.subrange(32 + (jv.len() as int) + (idv.len() as int), 32 + (jv.len() as int) + (idv.len() as int) + (rv.len() as int)) == rv,
        s[32 + (jv.len() as int) + (idv.len() as int) + (rv.len() as int)] == '"',
        s[33 + (jv.len() as int) + (idv.len() as int) + (rv.len() as int)] == '}',
    ensures
        s == enc_response(ResponseModel { jsonrpc: jv, id: idv, result: rv }),
{
    reveal_strlit("{\"jsonrpc\":\"");
    reveal_strlit("\",\"id\":\"");
    reveal_strlit("\",\"result\":\"");
    reveal_strlit("\"}");
    reveal_strlit(",\"id\":\"");
    reveal_strlit(",\"result\":\"");
    let jl = jv.len() as int;
    let il = idv.len() as int;
    let rl = rv.len() as int;
    let e = enc_response(ResponseModel { jsonrpc: jv, id: idv, result: rv });
    assert(e.len() == s.len());
    assert forall|x: int| 0 <= x < s.len() implies s[x] == e[x] by {
        if x < 12 {
            assert(s[x] == s.subrange(0, 12)[x]);
        } else if x < 12 + jl {
            assert(s[x] == s.subrange(12, 12 + jl)[x - 12]);
        } else if x == 12 + jl {
        } else if x < 20 + jl {
            assert(s[x] == s.subrange(13 + jl, 20 + jl)[x - (13 + jl)]);
        } else if x < 20 + jl + il {
            assert(s[x] == s.subrange(20 + jl, 20 + jl + il)[x - (20 + jl)]);
        } else if x == 20 + jl + il {
        } else if x < 32 + jl + il {
            assert(s[x] == s.subrange(21 + jl + il, 32 + jl + il)[x - (21 + jl + il)]);
        } else if x < 32 + jl + il + rl {
            assert(s[x] == s.subrange(32 + jl + il, 32 + jl + il + rl)[x - (32 + jl + il)]);
        }
    }
    assert(s =~= e);
}

/// Where each piece of a server error envelope lies in its encoding.
proof fn lemma_error_shape(s: Seq<char>, ver: Seq<char>, id: Seq<char>, b: ErrorBodyModel)
    requires
        s == enc_error_response(ver, id, b),
    ensures
        s.len() == 53 + (ver.len() as int) + (id.len() as int) + (enc_int(b.code).len() as int) + (b.message.len() as int),
        s.subrange(0, 12) == "{\"jsonrpc\":\""@,
        s.subrange(12, 12 + (ver.len() as int)) == ver,
        s[12 + (ver.len() as int)] == '"',
        s.subrange(13 + (ver.len() as int), 20 + (ver.len() as int)) == ",\"id\":\""@,
        s.subrange(20 + (ver.len() as int), 20 + (ver.len() as int) + (id.len() as int)) == id,
        s[20 + (ver.len() as int) + (id.len() as int)] == '"',
        s.subrange(21 + (ver.len() as int) + (id.len() as int), 38 + (ver.len() as int) + (id.len() as int))
            == ",\"error\":{\"code\":"@,
        s.subrange(
            38 + (ver.len() as int) + (id.len() as int),
            38 + (ver.len() as int) + (id.len() as int) + (enc_int(b.code).len() as int),
        ) == enc_int(b.code),
        s.subrange(
            38 + (ver.len() as int) + (id.len() as int) + (enc_int(b.code).len() as int),
            50 + (ver.len() as int) + (id.len() as int) + (enc_int(b.code).len() as int),
        ) == ",\"message\":\""@,
        s.subrange(
            50 + (ver.len() as int) + (id.len() as int) + (enc_int(b.code).len() as int),
            50 + (ver.len() as int) + (id.len() as int) + (enc_int(b.code).len() as int) + (b.message.len() as int),
        ) == b.message,
        s[50 + (ver.len() as int) + (id.len() as int) + (enc_int(b.code).len() as int) + (b.message.len() as int)] == '"',
        s.subrange(
            51 + (ver.len() as int) + (id.len() as int) + (enc_int(b.code).len() as int) + (b.message.len() as int),
            53 + (ver.len() as int) + (id.len() as int) + (enc_int(b.code).len() as int) + (b.message.len() as int),
        ) == "}}"@,
{
    reveal_strlit("{\"jsonrpc\":\"");
    reveal_strlit("\",\"id\":\"");
    reveal_strlit("\",\"error\":{\"code\":");
    reveal_strlit(",\"message\":\"");
    reveal_strlit("\"}}");
    reveal_strlit(",\"id\":\"");
    reveal_strlit(",\"error\":{\"code\":");
    reveal_strlit("}}");
    let jl = ver.len() as int;
    let il = id.len() as int;
    let cl = enc_int(b.code).len() as int;
    let ml = b.message.len() as int;
    assert(s.subrange(0, 12) =~= "{\"jsonrpc\":\""@);
    assert(s.subrange(12, 12 + jl) =~= ver);
    assert(s.subrange(12 + jl, 20 + jl) =~= "\",\"id\":\""@);
    assert(s[12 + jl] == '"');
    assert(s.subrange(13 + jl, 20 + jl) =~= ",\"id\":\""@);
    assert(s.subrange(20 + jl, 20 + jl + il) =~= id);
    assert(s.subrange(20 + jl + il, 38 + jl + il) =~= "\",\"error\":{\"code\":"@);
    assert(s[20 + jl + il] == '"');
    assert(s.subrange(21 + jl + il, 38 + jl + il) =~= ",\"error\":{\"code\":"@);
    assert(s.subrange(38 + jl + il, 38 + jl + il + cl) =~= enc_int(b.code));
    assert(s.subrange(38 + jl + il + cl, 50 + jl + il + cl) =~= ",\"message\":\""@);
    assert(s.subrange(50 + jl + il + cl, 50 + jl + il + cl + ml) =~= b.message);
    assert(s.subrange(50 + jl + il + cl + ml, 53 + jl + il + cl + ml) =~= "\"}}"@);
    assert(s[50 + jl + il + cl + ml] == '"');
    assert(s.subrange(51 + jl + il + cl + ml, 53 + jl + il + cl + ml) =~= "}}"@);
}

/// The pieces of a server error envelope, laid end to end, are its
/// encoding.
proof fn lemma_error_assemble(
    s: Seq<char>,
    jv: Seq<char>,
    idv: Seq<char>,
    code: int,
    mv: Seq<char>,
)
    requires
        s.len() == 53 + (jv.len() as int) + (idv.len() as int) + (enc_int(code).len() as int) + (mv.len() as int),
        s.subrange(0, 12) == "{\"jsonrpc\":\""@,
        s.subrange(12, 12 + (jv.len() as int)) == jv,
        s[12 + (jv.len() as int)] == '"',
        s.subrange(13 + (jv.len() as int), 20 + (jv.len() as int)) == ",\"id\":\""@,
        s.subrange(20 + (jv.len() as int), 20 + (jv.len() as int) + (idv.len() as int)) == idv,
        s[20 + (jv.len() as int) + (idv.len() as int)] == '"',
        s.subrange(21 + (jv.len() as int) + (idv.len() as int), 38 + (jv.len() as int) + (idv.len() as int))
            == ",\"error\":{\"code\":"@,
        s.subrange(
            38 + (jv.len() as int) + (idv.len() as int),
            38 + (jv.len() as int) + (idv.len() as int) + (enc_int(code).len() as int),
        ) == enc_int(code),
        s.subrange(
            38 + (jv.len() as int) + (idv.len() as int) + (enc_int(code).len() as int),
            50 + (jv.len() as int) + (idv.len() as int) + (enc_int(code).len() as int),
        ) == ",\"message\":\""@,
        s.subrange(
            50 + (jv.len() as int) + (idv.len() as int) + (enc_int(code).len() as int),
            50 + (jv.len() as int) + (idv.len() as int) + (enc_int(code).len() as int) + (mv.len() as int),
        ) == mv,
        s[50 + (jv.len() as int) + (idv.len() as int) + (enc_int(code).len() as int) + (mv.len() as int)] == '"',
        s.subrange(
            51 + (jv.len() as int) + (idv.len() as int) + (enc_int(code).len() as int) + (mv.len() as int),
            53 + (jv.len() as int) + (idv.len() as int) + (enc_int(code).len() as int) + (mv.len() as int),
        ) == "}}"@,
    ensures
        s == enc_error_response(jv, idv, ErrorBodyModel { code, message: mv }),
{
    reveal_strlit("{\"jsonrpc\":\"");
    reveal_strlit("\",\"id\":\"");
    reveal_strlit("\",\"error\":{\"code\":");
    reveal_strlit(",\"message\":\"");
    reveal_strlit("\"}}");
    reveal_strlit(",\"id\":\"");
    reveal_strlit(",\"error\":{\"code\":");
    reveal_strlit("}}");
    let jl = jv.len() as int;
    let il = idv.len() as int;
    let cl = enc_int(code).len() as int;
    let ml = mv.len() as int;
    let e = enc_error_response(jv, idv, ErrorBodyModel { code, message: mv });
    assert(e.len() == s.len());
    assert forall|x: int| 0 <= x < s.len() implies s[x] == e[x] by {
        if x < 12 {
            assert(s[x] == s.subrange(0, 12)[x]);
        } else if x < 12 + jl {
            assert(s[x] == s.subrange(12, 12 + jl)[x - 12]);
        } else if x == 12 + jl {
        } else if x < 20 + jl {
            assert(s[x] == s.subrange(13 + jl, 20 + jl)[x - (13 + jl)]);
        } else if x < 20 + jl + il {
            assert(s[x] == s.subrange(20 + jl, 20 + jl + il)[x - (20 + jl)]);
        } else if x == 20 + jl + il {
        } else if x < 38 + jl + il {
            assert(s[x] == s.subrange(21 + jl + il, 38 + jl + il)[x - (21 + jl + il)]);
        } else if x < 38 + jl + il + cl {
            assert(s[x] == s.subrange(38 + jl + il, 38 + jl + il + cl)[x - (38 + jl + il)]);
        } else if x < 50 + jl + il + cl {
            assert(s[x] == s.subrange(38 + jl + il + cl, 50 + jl + il + cl)[x - (38 + jl + il
                + cl)]);
        } else if x < 50 + jl + il + cl + ml {
            assert(s[x] == s.subrange(50 + jl + il + cl, 50 + jl + il + cl + ml)[x - (50 + jl
                + il + cl)]);
        } else if x == 50 + jl + il + cl + ml {
        } else {
            assert(s[x] == s.subrange(51 + jl + il + cl + ml, 53 + jl + il + cl + ml)[x - (51
                + jl + il + cl + ml)]);
        }
    }
    assert(s =~= e);
}

/// Parse a response payload.
///
/// Exactly the canonical encoding of a well-formed success envelope
/// parses to `Ok`, and round-trips: the result's model equals the encoded
/// one. Exactly the canonical encoding of a server error object parses to
/// the distinct `Rpc` error carrying the server's code and message.
/// Everything else is `Malformed`.
#[verifier::rlimit(100)]
pub fn parse_response(s: &str) -> (res: Result<JsonRpcResponse, EnvelopeError>)
    ensures
        res matches Ok(r) ==> r@.wf() && s@ == enc_response(r@),
        forall|m: ResponseModel| is_success_form(s@, m) ==> (res matches Ok(r) && r@ == m),
        res matches Err(e) ==> (e matches EnvelopeError::Rpc(b) ==> b@.wf() && exists|
            ver: Seq<char>,
            id: Seq<char>,
        | is_error_form(s@, ver, id, b@)),
        forall|ver: Seq<char>, id: Seq<char>, b: ErrorBodyModel|
            is_error_form(s@, ver, id, b) ==> (res matches Err(EnvelopeError::Rpc(rb)) && rb@
                == b),
{
    let n = s.unicode_len();
    let oi1 = expect_lit(s, 0, "{\"jsonrpc\":\"");
    let i1 = match oi1 {
        Some(x) => x,
        None => {
            proof {
                reveal_strlit("{\"jsonrpc\":\"");
                assert forall|m: ResponseModel| is_success_form(s@, m) implies false by {
                    lemma_response_shape(s@, m);
                }
                assert forall|ver: Seq<char>, id: Seq<char>, b: ErrorBodyModel| is_error_form(
                    s@,
                    ver,
                    id,
                    b,
                ) implies false by {
                    lemma_error_shape(s@, ver, id, b);
                }
            }
            return Err(EnvelopeError::Decode(DecodeError::Malformed));
        },
    };
    proof {
        reveal_strlit("{\"jsonrpc\":\"");
        assert(i1 == 12);
    }
    let pver = parse_string(s, i1);
    let (ver, i2) = match pver {
        Some(p) => p,
        None => {
            proof {
                assert forall|m: ResponseModel| is_success_form(s@, m) implies false by {
                    lemma_response_shape(s@, m);
                }
                assert forall|ver: Seq<char>, id: Seq<char>, b: ErrorBodyModel| is_error_form(
                    s@,
                    ver,
                    id,
                    b,
                ) implies false by {
                    lemma_error_shape(s@, ver, id, b);
                }
            }
            return Err(EnvelopeError::Decode(DecodeError::Malformed));
        },
    };
    let oi3 = expect_lit(s, i2, ",\"id\":\"");
    let i3 = match oi3 {
        Some(x) => x,
        None => {
            proof {
                reveal_strlit(",\"id\":\"");
                assert forall|m: ResponseModel| is_success_form(s@, m) implies false by {
                    lemma_response_shape(s@, m);
                    assert(ver@ == m.jsonrpc && i2 == 13 + (m.jsonrpc.len() as int));
                }
                assert forall|ver0: Seq<char>, id0: Seq<char>, b: ErrorBodyModel| is_error_form(
                    s@,
                    ver0,
                    id0,
                    b,
                ) implies false by {
                    lemma_error_shape(s@, ver0, id0, b);
                    assert(ver@ == ver0 && i2 == 13 + ver0.len());
                }
            }
            return Err(EnvelopeError::Decode(DecodeError::Malformed));
        },
    };
    let pid = parse_string(s, i3);
    let (id, i4) = match pid {
        Some(p) => p,
        None => {
            proof {
                reveal_strlit(",\"id\":\"");
                assert forall|m: ResponseModel| is_success_form(s@, m) implies false by {
                    lemma_response_shape(s@, m);
                    assert(ver@ == m.jsonrpc && i3 == 20 + (m.jsonrpc.len() as int));
                }
                assert forall|ver0: Seq<char>, id0: Seq<char>, b: ErrorBodyModel| is_error_form(
                    s@,
                    ver0,
                    id0,
                    b,
                ) implies false by {
                    lemma_error_shape(s@, ver0, id0, b);
                    assert(ver@ == ver0 && i3 == 20 + ver0.len());
                }
            }
            return Err(EnvelopeError::Decode(DecodeError::Malformed));
        },
    };
    proof {
        reveal_strlit(",\"id\":\"");
        reveal_strlit(",\"result\":\"");
        reveal_strlit(",\"error\":{\"code\":");
    }
    let ores = expect_lit(s, i4, ",\"result\":\"");
    match ores {
        Some(i5) => {
            // The error form is impossible here: at this offset it reads
            // `,"error"...`, which differs from `,"result"...`.
            proof {
                assert forall|ver0: Seq<char>, id0: Seq<char>, b: ErrorBodyModel| is_error_form(
                    s@,
                    ver0,
                    id0,
                    b,
                ) implies false by {
                    reveal_strlit(",\"result\":\"");
                    reveal_strlit(",\"error\":{\"code\":");
                    lemma_error_shape(s@, ver0, id0, b);
                    assert(ver@ == ver0 && i3 == 20 + ver0.len());
                    assert(id@ == id0 && i4 == 21 + ver0.len() + id0.len());
                    assert(s@.subrange(i4 as int, i4 + 17) == ",\"error\":{\"code\":"@);
                    assert(s@[i4 + 2] == s@.subrange(i4 as int, i4 + 17)[2]);
                    assert(s@[i4 + 2] == ",\"error\":{\"code\":"@[2]);
                    assert(s@[i4 + 2] == s@.subrange(i4 as int, i4 + 11)[2]);
                    assert(s@[i4 + 2] == ",\"result\":\""@[2]);
                    assert(false);
                }
            }
            let pres = parse_string(s, i5);
            let (rs, i6) = match pres {
                Some(p) => p,
                None => {
                    proof {
                        assert forall|m: ResponseModel| is_success_form(s@, m) implies false by {
                            lemma_response_shape(s@, m);
                            assert(ver@ == m.jsonrpc && i2 == 13 + (m.jsonrpc.len() as int));
                            assert(i3 == 20 + (m.jsonrpc.len() as int));
                            assert(id@ == m.id && i4 == 21 + (m.jsonrpc.len() as int) + (
                            m.id.len() as int));
                            assert(i5 == 32 + (m.jsonrpc.len() as int) + (m.id.len() as int));
                        }
                    }
                    return Err(EnvelopeError::Decode(DecodeError::Malformed));
                },
            };
            let oi7 = expect_lit(s, i6, "}");
            let i7 = match oi7 {
                Some(x) => x,
                None => {
                    proof {
                        reveal_strlit("}");
                        assert forall|m: ResponseModel| is_success_form(s@, m) implies false by {
                            lemma_response_shape(s@, m);
                            assert(ver@ == m.jsonrpc && i2 == 13 + (m.jsonrpc.len() as int));
                            assert(i3 == 20 + (m.jsonrpc.len() as int));
                            assert(id@ == m.id && i4 == 21 + (m.jsonrpc.len() as int) + (
                            m.id.len() as int));
                            assert(i5 == 32 + (m.jsonrpc.len() as int) + (m.id.len() as int));
                            assert(rs@ == m.result);
                            assert(i6 == 33 + (m.jsonrpc.len() as int) + (m.id.len() as int) + (m.result.len() as int));
                            assert(s@.subrange(i6 as int, i6 + 1) =~= seq![s@[i6 as int]]);
                            assert(s@.subrange(i6 as int, i6 + 1) =~= "}"@);
                        }
                    }
                    return Err(EnvelopeError::Decode(DecodeError::Malformed));
                },
            };
            if i7 != n {
                proof {
                    reveal_strlit("}");
                    assert forall|m: ResponseModel| is_success_form(s@, m) implies false by {
                        lemma_response_shape(s@, m);
                        assert(ver@ == m.jsonrpc && i2 == 13 + (m.jsonrpc.len() as int));
                        assert(i3 == 20 + (m.jsonrpc.len() as int));
                        assert(id@ == m.id && i4 == 21 + (m.jsonrpc.len() as int) + (
                        m.id.len() as int));
                        assert(i5 == 32 + (m.jsonrpc.len() as int) + (m.id.len() as int));
                        assert(rs@ == m.result);
                        assert(i6 == 33 + (m.jsonrpc.len() as int) + (m.id.len() as int) + (
                        m.result.len() as int));
                        assert(i7 == 34 + (m.jsonrpc.len() as int) + (m.id.len() as int) + (
                        m.result.len() as int));
                        assert(i7 == n);
                    }
                }
                return Err(EnvelopeError::Decode(DecodeError::Malformed));
            }
            let resp = JsonRpcResponse { jsonrpc: ver, id, result: rs };
            proof {
                reveal_strlit("}");
                reveal_strlit("{\"jsonrpc\":\"");
                let jl = resp.jsonrpc@.len() as int;
                let il = resp.id@.len() as int;
                let rl = resp.result@.len() as int;
                assert(s@.subrange(13 + jl, 20 + jl) =~= ",\"id\":\""@) by {
                    assert(s@.subrange(i2 as int, i2 + 7) == ",\"id\":\""@);
                }
                assert(s@.subrange(21 + jl + il, 32 + jl + il) =~= ",\"result\":\""@) by {
                    assert(s@.subrange(i4 as int, i4 + 11) == ",\"result\":\""@);
                }
                assert(s@[12 + jl] == '"');
                assert(s@[20 + jl + il] == '"');
                assert(s@[32 + jl + il + rl] == '"');
                assert(s@[33 + jl + il + rl] == '}') by {
                    assert(s@.subrange(i6 as int, i6 + 1) == "}"@);
                    assert(s@.subrange(i6 as int, i6 + 1)[0] == s@[i6 as int]);
                }
                lemma_response_assemble(s@, resp.jsonrpc@, resp.id@, resp.result@);
                assert(resp@ == ResponseModel {
                    jsonrpc: resp.jsonrpc@,
                    id: resp.id@,
                    result: resp.result@,
                });
                assert forall|m: ResponseModel| is_success_form(s@, m) implies resp@ == m by {
                    lemma_response_shape(s@, m);
                    assert(ver@ == m.jsonrpc && i2 == 13 + (m.jsonrpc.len() as int));
                    assert(i3 == 20 + (m.jsonrpc.len() as int));
                    assert(id@ == m.id && i4 == 21 + (m.jsonrpc.len() as int) + (
                    m.id.len() as int));
                    assert(i5 == 32 + (m.jsonrpc.len() as int) + (m.id.len() as int));
                    assert(rs@ == m.result);
                }
            }
            Ok(resp)
        },
        None => {
            // Not a success envelope; for any success model the literal
            // would have matched here.
            proof {
                assert forall|m: ResponseModel| is_success_form(s@, m) implies false by {
                    lemma_response_shape(s@, m);
                    assert(ver@ == m.jsonrpc && i3 == 20 + (m.jsonrpc.len() as int));
                    assert(id@ == m.id && i4 == 21 + (m.jsonrpc.len() as int) + (m.id.len() as int));
                }
                reveal_strlit("{\"jsonrpc\":\"");
                reveal_strlit(",\"id\":\"");
                assert(ver@ == s@.subrange(12, 12 + (ver@.len() as int)));
                assert(s@.subrange(13 + (ver@.len() as int), 20 + (ver@.len() as int)) =~= ",\"id\":\""@) by {
                    assert(s@.subrange(i2 as int, i2 + 7) == ",\"id\":\""@);
                }
                assert(id@ == s@.subrange(
                    20 + (ver@.len() as int),
                    20 + (ver@.len() as int) + (id@.len() as int),
                ));
                assert(s@[12 + (ver@.len() as int)] == '"');
                assert(s@[20 + (ver@.len() as int) + (id@.len() as int)] == '"');
                assert forall|ver0: Seq<char>, id0: Seq<char>, b: ErrorBodyModel| is_error_form(
                    s@,
                    ver0,
                    id0,
                    b,
                ) implies ver@ == ver0 && id@ == id0 by {
                    lemma_error_shape(s@, ver0, id0, b);
                    assert(ver@ == ver0 && i2 == 13 + (ver0.len() as int));
                    assert(i3 == 20 + (ver0.len() as int));
                    assert(id@ == id0);
                }
            }
            parse_error_tail(s, i4, &ver, &id)
        },
    }
}

/// Parse the remainder of a response payload that is not a success
/// envelope: from just after the id's closing quote, expect the server
/// error object and surface its code and message.
#[verifier::rlimit(100)]
/// All the facts about a server error encoding that the tail parser
/// needs, relative to the start of the code field.
proof fn lemma_error_tail_facts(s: Seq<char>, ver0: Seq<char>, id0: Seq<char>, b: ErrorBodyModel)
    requires
        s == enc_error_response(ver0, id0, b),
    ensures
        ({
            let i5 = 38 + (ver0.len() as int) + (id0.len() as int);
            let cl = enc_int(b.code).len() as int;
            let ml = b.message.len() as int;
            &&& s.len() == i5 + cl + 15 + ml
            &&& s.subrange(i5 - 17, i5) == ",\"error\":{\"code\":"@
            &&& s.subrange(i5, i5 + cl) == enc_int(b.code)
            &&& s[i5 + cl] == ','
            &&& s.subrange(i5 + cl, i5 + cl + 12) == ",\"message\":\""@
            &&& s.subrange(i5 + cl + 12, i5 + cl + 12 + ml) == b.message
            &&& s[i5 + cl + 12 + ml] == '"'
            &&& s.subrange(i5 + cl + 13 + ml, i5 + cl + 15 + ml) == "}}"@
        }),
{
    lemma_error_shape(s, ver0, id0, b);
    reveal_strlit(",\"message\":\"");
    let i5 = 38 + (ver0.len() as int) + (id0.len() as int);
    let cl = enc_int(b.code).len() as int;
    assert(s[i5 + cl] == s.subrange(i5 + cl, i5 + cl + 12)[0]);
}

fn parse_error_tail(s: &str, i4: usize, ver: &String, id: &String) -> (res: Result<
    JsonRpcResponse,
    EnvelopeError,
>)
    requires
        i4 <= s@.len(),
        i4 == 21 + ver@.len() + id@.len(),
        forall|m: ResponseModel| !is_success_form(s@, m),
        forall|ver0: Seq<char>, id0: Seq<char>, b: ErrorBodyModel|
            is_error_form(s@, ver0, id0, b) ==> (ver@ == ver0 && id@ == id0),
        json_safe(ver@),
        json_safe(id@),
        s@.subrange(0, 12) == "{\"jsonrpc\":\""@,
        s@.subrange(12, 12 + (ver@.len() as int)) == ver@,
        s@[12 + (ver@.len() as int)] == '"',
        s@.subrange(13 + (ver@.len() as int), 20 + (ver@.len() as int)) == ",\"id\":\""@,
        s@.subrange(20 + (ver@.len() as int), 20 + (ver@.len() as int) + (id@.len() as int))
            == id@,
        s@[20 + (ver@.len() as int) + (id@.len() as int)] == '"',
    ensures
        res is Err,
        res matches Err(e) ==> (e matches EnvelopeError::Rpc(b) ==> b@.wf() && exists|
            ver0: Seq<char>,
            id0: Seq<char>,
        | is_error_form(s@, ver0, id0, b@)),
        forall|ver0: Seq<char>, id0: Seq<char>, b: ErrorBodyModel|
            is_error_form(s@, ver0, id0, b) ==> (res matches Err(EnvelopeError::Rpc(rb)) && rb@
                == b),
{
    let n = s.unicode_len();
    let oerr = expect_lit(s, i4, ",\"error\":{\"code\":");
    let i5 = match oerr {
        Some(x) => x,
        None => {
            proof {
                reveal_strlit(",\"error\":{\"code\":");
                assert forall|ver0: Seq<char>, id0: Seq<char>, b: ErrorBodyModel|
                    is_error_form(s@, ver0, id0, b) implies false by {
                    assert(ver@ == ver0 && id@ == id0);
                    lemma_error_tail_facts(s@, ver0, id0, b);
                    assert(s@.subrange(i4 as int, i4 + 17) == ",\"error\":{\"code\":"@);
                }
            }
            return Err(EnvelopeError::Decode(DecodeError::Malformed));
        },
    };
    proof {
        reveal_strlit(",\"error\":{\"code\":");
        assert(i5 == i4 + 17);
    }
    let pcode = parse_int(s, i5);
    let (code, i6) = match pcode {
        Some(p) => p,
        None => {
            proof {
                assert forall|ver0: Seq<char>, id0: Seq<char>, b: ErrorBodyModel|
                    is_error_form(s@, ver0, id0, b) implies false by {
                    assert(ver@ == ver0 && id@ == id0);
                    lemma_error_tail_facts(s@, ver0, id0, b);
                    assert(i5 == 38 + (ver0.len() as int) + (id0.len() as int));
                    let cl = enc_int(b.code).len() as int;
                    let cv = b.code as i64;
                    assert(enc_int(cv as int) == enc_int(b.code));
                    assert(!is_dec_digit(','));
                }
            }
            return Err(EnvelopeError::Decode(DecodeError::Malformed));
        },
    };
    let oi7 = expect_lit(s, i6, ",\"message\":\"");
    let i7 = match oi7 {
        Some(x) => x,
        None => {
            proof {
                reveal_strlit(",\"message\":\"");
                assert forall|ver0: Seq<char>, id0: Seq<char>, b: ErrorBodyModel|
                    is_error_form(s@, ver0, id0, b) implies false by {
                    assert(ver@ == ver0 && id@ == id0);
                    lemma_error_tail_facts(s@, ver0, id0, b);
                    assert(i5 == 38 + (ver0.len() as int) + (id0.len() as int));
                    let cl = enc_int(b.code).len() as int;
                    let cv = b.code as i64;
                    assert(enc_int(cv as int) == enc_int(b.code));
                    assert(!is_dec_digit(','));
                    assert(code == cv && i6 == i5 + cl);
                }
            }
            return Err(EnvelopeError::Decode(DecodeError::Malformed));
        },
    };
    let pmsg = parse_string(s, i7);
    let (msg, i8) = match pmsg {
        Some(p) => p,
        None => {
            proof {
                assert forall|ver0: Seq<char>, id0: Seq<char>, b: ErrorBodyModel|
                    is_error_form(s@, ver0, id0, b) implies false by {
                    assert(ver@ == ver0 && id@ == id0);
                    lemma_error_tail_facts(s@, ver0, id0, b);
                    assert(i5 == 38 + (ver0.len() as int) + (id0.len() as int));
                    let cl = enc_int(b.code).len() as int;
                    let cv = b.code as i64;
                    assert(enc_int(cv as int) == enc_int(b.code));
                    assert(!is_dec_digit(','));
                    assert(code == cv && i6 == i5 + cl);
                    assert(i7 == i5 + cl + 12);
                }
            }
            return Err(EnvelopeError::Decode(DecodeError::Malformed));
        },
    };
    let oi9 = expect_lit(s, i8, "}}");
    let i9 = match oi9 {
        Some(x) => x,
        None => {
            proof {
                reveal_strlit("}}");
                assert forall|ver0: Seq<char>, id0: Seq<char>, b: ErrorBodyModel|
                    is_error_form(s@, ver0, id0, b) implies false by {
                    assert(ver@ == ver0 && id@ == id0);
                    lemma_error_tail_facts(s@, ver0, id0, b);
                    assert(i5 == 38 + (ver0.len() as int) + (id0.len() as int));
                    let cl = enc_int(b.code).len() as int;
                    let cv = b.code as i64;
                    assert(enc_int(cv as int) == enc_int(b.code));
                    assert(!is_dec_digit(','));
                    assert(code == cv && i6 == i5 + cl);
                    assert(i7 == i5 + cl + 12);
                    assert(msg@ == b.message && i8 == i5 + cl + 13 + (b.message.len() as int));
                }
            }
            return Err(EnvelopeError::Decode(DecodeError::Malformed));
        },
    };
    if i9 != n {
        proof {
            assert forall|ver0: Seq<char>, id0: Seq<char>, b: ErrorBodyModel|
                is_error_form(s@, ver0, id0, b) implies false by {
                assert(ver@ == ver0 && id@ == id0);
                lemma_error_tail_facts(s@, ver0, id0, b);
                assert(i5 == 38 + (ver0.len() as int) + (id0.len() as int));
                let cl = enc_int(b.code).len() as int;
                let cv = b.code as i64;
                assert(enc_int(cv as int) == enc_int(b.code));
                assert(!is_dec_digit(','));
                assert(code == cv && i6 == i5 + cl);
                assert(i7 == i5 + cl + 12);
                assert(msg@ == b.message && i8 == i5 + cl + 13 + (b.message.len() as int));
                assert(i9 == i5 + cl + 15 + (b.message.len() as int));
                assert(i9 == n);
            }
        }
        return Err(EnvelopeError::Decode(DecodeError::Malformed));
    }
    let body = RpcErrorBody { code, message: msg };
    proof {
        reveal_strlit("{\"jsonrpc\":\"");
        reveal_strlit(",\"error\":{\"code\":");
        reveal_strlit(",\"message\":\"");
        reveal_strlit("}}");
        let jl = ver@.len() as int;
        let il = id@.len() as int;
        let cl = enc_int(code as int).len() as int;
        let ml = body.message@.len() as int;
        assert(s@.subrange(13 + jl, 20 + jl) == ",\"id\":\""@);
        assert(s@.subrange(21 + jl + il, 38 + jl + il) =~= ",\"error\":{\"code\":"@) by {
            assert(s@.subrange(i4 as int, i4 + 17) == ",\"error\":{\"code\":"@);
        }
        assert(s@.subrange(38 + jl + il, 38 + jl + il + cl) == enc_int(code as int));
        assert(s@.subrange(38 + jl + il + cl, 50 + jl + il + cl) =~= ",\"message\":\""@)
            by {
            assert(s@.subrange(i6 as int, i6 + 12) == ",\"message\":\""@);
        }
        assert(s@[12 + jl] == '"');
        assert(s@[20 + jl + il] == '"');
        assert(s@[50 + jl + il + cl + ml] == '"');
        assert(s@.subrange(51 + jl + il + cl + ml, 53 + jl + il + cl + ml) =~= "}}"@)
            by {
            assert(s@.subrange(i8 as int, i8 + 2) == "}}"@);
        }
        lemma_error_assemble(s@, ver@, id@, code as int, body.message@);
        assert(body@ == ErrorBodyModel { code: code as int, message: body.message@ });
        assert(is_error_form(s@, ver@, id@, body@));
        assert forall|ver0: Seq<char>, id0: Seq<char>, b: ErrorBodyModel| is_error_form(
            s@,
            ver0,
            id0,
            b,
        ) implies body@ == b by {
            assert(ver@ == ver0 && id@ == id0);
            lemma_error_tail_facts(s@, ver0, id0, b);
            assert(i5 == 38 + (ver0.len() as int) + (id0.len() as int));
            let cl0 = enc_int(b.code).len() as int;
            let cv = b.code as i64;
            assert(enc_int(cv as int) == enc_int(b.code));
            assert(!is_dec_digit(','));
            assert(code == cv && i6 == i5 + cl0);
            assert(i7 == i5 + cl0 + 12);
            assert(msg@ == b.message);
            assert(body@.code == b.code);
        }
    }
    Err(EnvelopeError::Rpc(body))
}


// ---------------------------------------------------------------------------
// Request parsing: the round trip back from the wire
// ---------------------------------------------------------------------------
/// The payload is the canonical encoding of the request `m`.
pub open spec fn is_request_form(s: Seq<char>, m: RequestModel) -> bool {
    m.wf() && s == enc_request(m)
}

/// How each encoded parameter begins, by its kind.
proof fn lemma_enc_param_first(p: ParamView)
    ensures
        enc_param(p).len() >= 1,
        p matches ParamView::Str(t) ==> enc_param(p)[0] == '"',
        p == ParamView::Bool(true) ==> enc_param(p) == "true"@ && enc_param(p)[0] == 't',
        p == ParamView::Bool(false) ==> enc_param(p) == "false"@ && enc_param(p)[0] == 'f',
{
    reveal_strlit("true");
    reveal_strlit("false");
    match p {
        ParamView::Str(t) => {
            assert(enc_param(p)[0] == (seq!['"'] + t + seq!['"'])[0]);
        },
        ParamView::Bool(_) => {},
    }
}

/// Splitting an encoded parameter list at its first element.
proof fn lemma_enc_params_peel(ps: Seq<ParamView>, k: int)
    requires
        0 <= k < ps.len(),
    ensures
        enc_params(ps.skip(k)) == if k + 1 == ps.len() {
            enc_param(ps[k])
        } else {
            enc_param(ps[k]) + seq![','] + enc_params(ps.skip(k + 1))
        },
{
    let t = ps.skip(k);
    assert(t[0] == ps[k]);
    if k + 1 == ps.len() {
        assert(t.len() == 1);
    } else {
        assert(t.drop_first() =~= ps.skip(k + 1));
    }
}

/// A subrange of a known span of the input.
proof fn lemma_span_subrange(s: Seq<char>, i: int, e: int, x: Seq<char>, a: int, b: int)
    requires
        0 <= i <= e <= s.len(),
        s.subrange(i, e) == x,
        0 <= a <= b <= x.len(),
    ensures
        s.subrange(i + a, i + b) == x.subrange(a, b),
{
    assert(s.subrange(i + a, i + b) =~= x.subrange(a, b));
}

/// Indexing into a known span of the input.
proof fn lemma_span_index(s: Seq<char>, i: int, e: int, x: Seq<char>, q: int)
    requires
        0 <= i <= e <= s.len(),
        s.subrange(i, e) == x,
        0 <= q < x.len(),
    ensures
        s[i + q] == x[q],
{
    assert(s.subrange(i, e)[q] == s[i + q]);
}

/// Read one encoded parameter at position `i`: exactly the encoding of a
/// well-formed parameter is accepted, and it is recovered unchanged.
fn parse_param(s: &str, i: usize) -> (res: Option<(MultipleTypes, usize)>)
    requires
        i <= s@.len(),
    ensures
        res matches Some(p) ==> (p.0@.wf() && i < p.1 <= s@.len() && s@.subrange(
            i as int,
            p.1 as int,
        ) == enc_param(p.0@)),
        forall|pv: ParamView, j: int|
            pv.wf() && i <= j <= s@.len() && s@.subrange(i as int, j) == enc_param(pv) ==> (
            res matches Some(p) && p.0@ == pv && p.1 == j),
{
    let n = s.unicode_len();
    if i >= n {
        proof {
            assert forall|pv: ParamView, j: int|
                pv.wf() && i <= j <= s@.len() && s@.subrange(i as int, j) == enc_param(
                    pv,
                ) implies false by {
                lemma_enc_param_first(pv);
                assert(j - i == enc_param(pv).len());
            }
        }
        return None;
    }
    let c = s.get_char(i);
    if c == '"' {
        let ps = parse_string(s, i + 1);
        match ps {
            Some(p) => {
                let (t, jn) = p;
                let ghost tv = t@;
                let out = MultipleTypes::Str(t);
                proof {
                    assert(out@ == ParamView::Str(tv));
                    assert(s@.subrange(i as int, jn as int) =~= seq!['"'] + tv + seq!['"']);
                    assert forall|pv: ParamView, j: int|
                        pv.wf() && i <= j <= s@.len() && s@.subrange(i as int, j) == enc_param(
                            pv,
                        ) implies out@ == pv && jn == j by {
                        lemma_enc_param_first(pv);
                        lemma_span_index(s@, i as int, j, enc_param(pv), 0);
                        reveal_strlit("true");
                        reveal_strlit("false");
                        match pv {
                            ParamView::Str(tt) => {
                                let x = enc_param(pv);
                                assert(j - i == x.len());
                                assert(x.len() == tt.len() + 2);
                                lemma_span_subrange(s@, i as int, j, x, 1, 1 + tt.len() as int);
                                assert(x.subrange(1, 1 + tt.len() as int) =~= tt);
                                lemma_span_index(s@, i as int, j, x, 1 + tt.len() as int);
                                assert(x[1 + tt.len() as int] == '"');
                                assert(s@.subrange(i + 1, i + 1 + tt.len() as int) == tt);
                                assert(s@[i + 1 + tt.len() as int] == '"');
                                assert(i + 1 + tt.len() < s@.len());
                            },
                            ParamView::Bool(bb) => {
                                assert(s@[i as int] == 't' || s@[i as int] == 'f');
                            },
                        }
                    }
                }
                Some((out, jn))
            },
            None => {
                proof {
                    assert forall|pv: ParamView, j: int|
                        pv.wf() && i <= j <= s@.len() && s@.subrange(i as int, j) == enc_param(
                            pv,
                        ) implies false by {
                        lemma_enc_param_first(pv);
                        lemma_span_index(s@, i as int, j, enc_param(pv), 0);
                        reveal_strlit("true");
                        reveal_strlit("false");
                        match pv {
                            ParamView::Str(tt) => {
                                let x = enc_param(pv);
                                assert(j - i == x.len());
                                assert(x.len() == tt.len() + 2);
                                lemma_span_subrange(s@, i as int, j, x, 1, 1 + tt.len() as int);
                                assert(x.subrange(1, 1 + tt.len() as int) =~= tt);
                                lemma_span_index(s@, i as int, j, x, 1 + tt.len() as int);
                                assert(x[1 + tt.len() as int] == '"');
                                assert(s@.subrange(i + 1, i + 1 + tt.len() as int) == tt);
                                assert(s@[i + 1 + tt.len() as int] == '"');
                                assert(i + 1 + tt.len() < s@.len());
                            },
                            ParamView::Bool(bb) => {
                                assert(s@[i as int] == 't' || s@[i as int] == 'f');
                            },
                        }
                    }
                }
                None
            },
        }
    } else if c == 't' {
        let ot = expect_lit(s, i, "true");
        proof {
            reveal_strlit("true");
            reveal_strlit("false");
        }
        match ot {
            Some(x) => {
                proof {
                    assert(enc_param(ParamView::Bool(true)) == "true"@);
                    assert forall|pv: ParamView, j: int|
                        pv.wf() && i <= j <= s@.len() && s@.subrange(i as int, j) == enc_param(
                            pv,
                        ) implies pv == ParamView::Bool(true) && j == i + 4 by {
                        lemma_enc_param_first(pv);
                        lemma_span_index(s@, i as int, j, enc_param(pv), 0);
                        match pv {
                            ParamView::Str(tt) => {
                                assert(s@[i as int] == '"');
                            },
                            ParamView::Bool(bb) => {
                                if !bb {
                                    assert(s@[i as int] == 'f');
                                }
                            },
                        }
                    }
                }
                Some((MultipleTypes::Bool(true), x))
            },
            None => {
                proof {
                    assert forall|pv: ParamView, j: int|
                        pv.wf() && i <= j <= s@.len() && s@.subrange(i as int, j) == enc_param(
                            pv,
                        ) implies false by {
                        lemma_enc_param_first(pv);
                        lemma_span_index(s@, i as int, j, enc_param(pv), 0);
                        match pv {
                            ParamView::Str(tt) => {
                                assert(s@[i as int] == '"');
                            },
                            ParamView::Bool(bb) => {
                                assert(bb);
                                assert(j == i + 4);
                                assert(s@.subrange(i as int, i + 4) == "true"@);
                            },
                        }
                    }
                }
                None
            },
        }
    } else if c == 'f' {
        let ot = expect_lit(s, i, "false");
        proof {
            reveal_strlit("true");
            reveal_strlit("false");
        }
        match ot {
            Some(x) => {
                proof {
                    assert(enc_param(ParamView::Bool(false)) == "false"@);
                    assert forall|pv: ParamView, j: int|
                        pv.wf() && i <= j <= s@.len() && s@.subrange(i as int, j) == enc_param(
                            pv,
                        ) implies pv == ParamView::Bool(false) && j == i + 5 by {
                        lemma_enc_param_first(pv);
                        lemma_span_index(s@, i as int, j, enc_param(pv), 0);
                        match pv {
                            ParamView::Str(tt) => {
                                assert(s@[i as int] == '"');
                            },
                            ParamView::Bool(bb) => {
                                if bb {
                                    assert(s@[i as int] == 't');
                                }
                            },
                        }
                    }
                }
                Some((MultipleTypes::Bool(false), x))
            },
            None => {
                proof {
                    assert forall|pv: ParamView, j: int|
                        pv.wf() && i <= j <= s@.len() && s@.subrange(i as int, j) == enc_param(
                            pv,
                        ) implies false by {
                        lemma_enc_param_first(pv);
                        lemma_span_index(s@, i as int, j, enc_param(pv), 0);
                        match pv {
                            ParamView::Str(tt) => {
                                assert(s@[i as int] == '"');
                            },
                            ParamView::Bool(bb) => {
                                assert(!bb);
                                assert(j == i + 5);
                                assert(s@.subrange(i as int, i + 5) == "false"@);
                            },
                        }
                    }
                }
                None
            },
        }
    } else {
        proof {
            reveal_strlit("true");
            reveal_strlit("false");
            assert forall|pv: ParamView, j: int|
                pv.wf() && i <= j <= s@.len() && s@.subrange(i as int, j) == enc_param(
                    pv,
                ) implies false by {
                lemma_enc_param_first(pv);
                lemma_span_index(s@, i as int, j, enc_param(pv), 0);
                match pv {
                    ParamView::Str(tt) => {
                        assert(s@[i as int] == '"');
                    },
                    ParamView::Bool(bb) => {
                        assert(s@[i as int] == 't' || s@[i as int] == 'f');
                    },
                }
            }
        }
        None
    }
}

/// Indexing into a known suffix of the input.
proof fn lemma_suffix_index(s: Seq<char>, i: int, x: Seq<char>, q: int)
    requires
        0 <= i <= s.len(),
        s.subrange(i, s.len() as int) == x,
        0 <= q < x.len(),
    ensures
        s[i + q] == x[q],
{
    assert(s.subrange(i, s.len() as int)[q] == s[i + q]);
}

/// A subrange of a known suffix of the input.
proof fn lemma_suffix_subrange(s: Seq<char>, i: int, x: Seq<char>, a: int, b: int)
    requires
        0 <= i <= s.len(),
        s.subrange(i, s.len() as int) == x,
        0 <= a <= b <= x.len(),
    ensures
        s.subrange(i + a, i + b) == x.subrange(a, b),
{
    assert(s.subrange(i + a, i + b) =~= x.subrange(a, b));
}

/// Where each piece of an encoded request lies.
proof fn lemma_request_shape(s: Seq<char>, m: RequestModel)
    requires
        s == enc_request(m),
    ensures
        s.len() == 46 + (m.jsonrpc.len() as int) + (m.method.len() as int) + (m.id.len() as int) + enc_params(
            m.params,
        ).len(),
        s.subrange(0, 12) == "{\"jsonrpc\":\""@,
        s.subrange(12, 12 + (m.jsonrpc.len() as int)) == m.jsonrpc,
        s[12 + (m.jsonrpc.len() as int)] == '"',
        s.subrange(13 + (m.jsonrpc.len() as int), 24 + (m.jsonrpc.len() as int)) == ",\"method\":\""@,
        s.subrange(24 + (m.jsonrpc.len() as int), 24 + (m.jsonrpc.len() as int) + (m.method.len() as int)) == m.method,
        s[24 + (m.jsonrpc.len() as int) + (m.method.len() as int)] == '"',
        s.subrange(
            25 + (m.jsonrpc.len() as int) + (m.method.len() as int),
            32 + (m.jsonrpc.len() as int) + (m.method.len() as int),
        ) == ",\"id\":\""@,
        s.subrange(
            32 + (m.jsonrpc.len() as int) + (m.method.len() as int),
            32 + (m.jsonrpc.len() as int) + (m.method.len() as int) + (m.id.len() as int),
        ) == m.id,
        s[32 + (m.jsonrpc.len() as int) + (m.method.len() as int) + (m.id.len() as int)] == '"',
        s.subrange(
            33 + (m.jsonrpc.len() as int) + (m.method.len() as int) + (m.id.len() as int),
            44 + (m.jsonrpc.len() as int) + (m.method.len() as int) + (m.id.len() as int),
        ) == ",\"params\":["@,
        s.subrange(44 + (m.jsonrpc.len() as int) + (m.method.len() as int) + (m.id.len() as int), s.len() as int)
            == enc_params(m.params) + "]}"@,
{
    reveal_strlit("{\"jsonrpc\":\"");
    reveal_strlit("\",\"method\":\"");
    reveal_strlit("\",\"id\":\"");
    reveal_strlit("\",\"params\":[");
    reveal_strlit("]}");
    reveal_strlit(",\"method\":\"");
    reveal_strlit(",\"id\":\"");
    reveal_strlit(",\"params\":[");
    let jl = m.jsonrpc.len() as int;
    let ml = m.method.len() as int;
    let il = m.id.len() as int;
    let pl = enc_params(m.params).len() as int;
    assert(s.subrange(0, 12) =~= "{\"jsonrpc\":\""@);
    assert(s.subrange(12, 12 + jl) =~= m.jsonrpc);
    assert(s.subrange(12 + jl, 24 + jl) =~= "\",\"method\":\""@);
    assert(s[12 + jl] == '"');
    assert(s.subrange(13 + jl, 24 + jl) =~= ",\"method\":\""@);
    assert(s.subrange(24 + jl, 24 + jl + ml) =~= m.method);
    assert(s.subrange(24 + jl + ml, 32 + jl + ml) =~= "\",\"id\":\""@);
    assert(s[24 + jl + ml] == '"');
    assert(s.subrange(25 + jl + ml, 32 + jl + ml) =~= ",\"id\":\""@);
    assert(s.subrange(32 + jl + ml, 32 + jl + ml + il) =~= m.id);
    assert(s.subrange(32 + jl + ml + il, 44 + jl + ml + il) =~= "\",\"params\":["@);
    assert(s[32 + jl + ml + il] == '"');
    assert(s.subrange(33 + jl + ml + il, 44 + jl + ml + il) =~= ",\"params\":["@);
    assert(s.subrange(44 + jl + ml + il, s.len() as int) =~= enc_params(m.params) + "]}"@);
}

/// The pieces of a request, laid end to end, are its encoding.
proof fn lemma_request_assemble(
    s: Seq<char>,
    jv: Seq<char>,
    mv: Seq<char>,
    idv: Seq<char>,
    pv: Seq<ParamView>,
)
    requires
        s.len() == 46 + (jv.len() as int) + (mv.len() as int) + (idv.len() as int) + (enc_params(pv).len() as int),
        s.subrange(0, 12) == "{\"jsonrpc\":\""@,
        s.subrange(12, 12 + (jv.len() as int)) == jv,
        s[12 + (jv.len() as int)] == '"',
        s.subrange(13 + (jv.len() as int), 24 + (jv.len() as int)) == ",\"method\":\""@,
        s.subrange(24 + (jv.len() as int), 24 + (jv.len() as int) + (mv.len() as int)) == mv,
        s[24 + (jv.len() as int) + (mv.len() as int)] == '"',
        s.subrange(25 + (jv.len() as int) + (mv.len() as int), 32 + (jv.len() as int) + (mv.len() as int)) == ",\"id\":\""@,
        s.subrange(32 + (jv.len() as int) + (mv.len() as int), 32 + (jv.len() as int) + (mv.len() as int) + (idv.len() as int)) == idv,
        s[32 + (jv.len() as int) + (mv.len() as int) + (idv.len() as int)] == '"',
        s.subrange(
            33 + (jv.len() as int) + (mv.len() as int) + (idv.len() as int),
            44 + (jv.len() as int) + (mv.len() as int) + (idv.len() as int),
        ) == ",\"params\":["@,
        s.subrange(
            44 + (jv.len() as int) + (mv.len() as int) + (idv.len() as int),
            44 + (jv.len() as int) + (mv.len() as int) + (idv.len() as int) + (enc_params(pv).len() as int),
        ) == enc_params(pv),
        s[44 + (jv.len() as int) + (mv.len() as int) + (idv.len() as int) + (enc_params(pv).len() as int)] == ']',
        s[45 + (jv.len() as int) + (mv.len() as int) + (idv.len() as int) + (enc_params(pv).len() as int)] == '}',
    ensures
        s == enc_request(RequestModel { jsonrpc: jv, method: mv, id: idv, params: pv }),
{
    reveal_strlit("{\"jsonrpc\":\"");
    reveal_strlit("\",\"method\":\"");
    reveal_strlit("\",\"id\":\"");
    reveal_strlit("\",\"params\":[");
    reveal_strlit("]}");
    reveal_strlit(",\"method\":\"");
    reveal_strlit(",\"id\":\"");
    reveal_strlit(",\"params\":[");
    let jl = jv.len() as int;
    let ml = mv.len() as int;
    let il = idv.len() as int;
    let pl = enc_params(pv).len() as int;
    let e = enc_request(RequestModel { jsonrpc: jv, method: mv, id: idv, params: pv });
    assert(e.len() == s.len());
    assert forall|x: int| 0 <= x < s.len() implies s[x] == e[x] by {
        if x < 12 {
            assert(s[x] == s.subrange(0, 12)[x]);
        } else if x < 12 + jl {
            assert(s[x] == s.subrange(12, 12 + jl)[x - 12]);
        } else if x == 12 + jl {
        } else if x < 24 + jl {
            assert(s[x] == s.subrange(13 + jl, 24 + jl)[x - (13 + jl)]);
        } else if x < 24 + jl + ml {
            assert(s[x] == s.subrange(24 + jl, 24 + jl + ml)[x - (24 + jl)]);
        } else if x == 24 + jl + ml {
        } else if x < 32 + jl + ml {
            assert(s[x] == s.subrange(25 + jl + ml, 32 + jl + ml)[x - (25 + jl + ml)]);
        } else if x < 32 + jl + ml + il {
            assert(s[x] == s.subrange(32 + jl + ml, 32 + jl + ml + il)[x - (32 + jl + ml)]);
        } else if x == 32 + jl + ml + il {
        } else if x < 44 + jl + ml + il {
            assert(s[x] == s.subrange(33 + jl + ml + il, 44 + jl + ml + il)[x - (33 + jl + ml
                + il)]);
        } else if x < 44 + jl + ml + il + pl {
            assert(s[x] == s.subrange(44 + jl + ml + il, 44 + jl + ml + il + pl)[x - (44 + jl
                + ml + il)]);
        }
    }
    assert(s =~= e);
}

/// Parse a request payload: exactly the canonical encoding of a
/// well-formed request parses, and round-trips to the same model, so
/// serializing then parsing returns every well-formed request unchanged.
#[verifier::rlimit(100)]
pub fn parse_request(s: &str) -> (res: Result<JsonRpcRequest, DecodeError>)
    ensures
        res matches Ok(r) ==> r@.wf() && s@ == enc_request(r@),
        forall|m: RequestModel| is_request_form(s@, m) ==> (res matches Ok(r) && r@ == m),
{
    let n = s.unicode_len();
    let oi1 = expect_lit(s, 0, "{\"jsonrpc\":\"");
    let i1 = match oi1 {
        Some(x) => x,
        None => {
            proof {
                reveal_strlit("{\"jsonrpc\":\"");
                assert forall|m: RequestModel| is_request_form(s@, m) implies false by {
                    lemma_request_shape(s@, m);
                }
            }
            return Err(DecodeError::Malformed);
        },
    };
    proof {
        reveal_strlit("{\"jsonrpc\":\"");
        assert(i1 == 12);
    }
    let pver = parse_string(s, i1);
    let (ver, i2) = match pver {
        Some(p) => p,
        None => {
            proof {
                assert forall|m: RequestModel| is_request_form(s@, m) implies false by {
                    lemma_request_shape(s@, m);
                }
            }
            return Err(DecodeError::Malformed);
        },
    };
    let oi3 = expect_lit(s, i2, ",\"method\":\"");
    let i3 = match oi3 {
        Some(x) => x,
        None => {
            proof {
                reveal_strlit(",\"method\":\"");
                assert forall|m: RequestModel| is_request_form(s@, m) implies false by {
                    lemma_request_shape(s@, m);
                    assert(ver@ == m.jsonrpc && i2 == 13 + (m.jsonrpc.len() as int));
                }
            }
            return Err(DecodeError::Malformed);
        },
    };
    let pmth = parse_string(s, i3);
    let (mth, i4) = match pmth {
        Some(p) => p,
        None => {
            proof {
                reveal_strlit(",\"method\":\"");
                assert forall|m: RequestModel| is_request_form(s@, m) implies false by {
                    lemma_request_shape(s@, m);
                    assert(ver@ == m.jsonrpc && i3 == 24 + (m.jsonrpc.len() as int));
                }
            }
            return Err(DecodeError::Malformed);
        },
    };
    let oi5 = expect_lit(s, i4, ",\"id\":\"");
    let i5 = match oi5 {
        Some(x) => x,
        None => {
            proof {
                reveal_strlit(",\"method\":\"");
                reveal_strlit(",\"id\":\"");
                assert forall|m: RequestModel| is_request_form(s@, m) implies false by {
                    lemma_request_shape(s@, m);
                    assert(ver@ == m.jsonrpc && i3 == 24 + (m.jsonrpc.len() as int));
                    assert(mth@ == m.method && i4 == 25 + (m.jsonrpc.len() as int) + (m.method.len() as int));
                }
            }
            return Err(DecodeError::Malformed);
        },
    };
    let pid = parse_string(s, i5);
    let (idv, i6) = match pid {
        Some(p) => p,
        None => {
            proof {
                reveal_strlit(",\"id\":\"");
                assert forall|m: RequestModel| is_request_form(s@, m) implies false by {
                    lemma_request_shape(s@, m);
                    assert(ver@ == m.jsonrpc && mth@ == m.method);
                    assert(i5 == 32 + (m.jsonrpc.len() as int) + (m.method.len() as int));
                }
            }
            return Err(DecodeError::Malformed);
        },
    };
    let oi0 = expect_lit(s, i6, ",\"params\":[");
    let i0 = match oi0 {
        Some(x) => x,
        None => {
            proof {
                reveal_strlit(",\"params\":[");
                assert forall|m: RequestModel| is_request_form(s@, m) implies false by {
                    lemma_request_shape(s@, m);
                    assert(ver@ == m.jsonrpc && mth@ == m.method && idv@ == m.id);
                    assert(i6 == 33 + (m.jsonrpc.len() as int) + (m.method.len() as int) + (m.id.len() as int));
                }
            }
            return Err(DecodeError::Malformed);
        },
    };
    proof {
        reveal_strlit(",\"params\":[");
        reveal_strlit("]}");
        assert forall|m: RequestModel| is_request_form(s@, m) implies ver@ == m.jsonrpc && mth@
            == m.method && idv@ == m.id && i0 == 44 + (m.jsonrpc.len() as int) + (m.method.len() as int)
            + (m.id.len() as int) && s@.subrange(i0 as int, n as int) == enc_params(m.params)
            + "]}"@ by {
            lemma_request_shape(s@, m);
        }
    }
    if i0 >= n {
        proof {
            assert forall|m: RequestModel| is_request_form(s@, m) implies false by {
                lemma_request_shape(s@, m);
                assert(s@.subrange(i0 as int, n as int).len() >= 2);
            }
        }
        return Err(DecodeError::Malformed);
    }
    let mut params: Vec<MultipleTypes> = Vec::new();
    let mut i: usize = i0;
    let c0 = s.get_char(i0);
    if c0 == ']' {
        i = i0 + 1;
        proof {
            assert forall|m: RequestModel| is_request_form(s@, m) implies m.params
                == params@.map_values(|p: MultipleTypes| p@) by {
                lemma_request_shape(s@, m);
                if m.params.len() > 0 {
                    lemma_enc_params_peel(m.params, 0);
                    lemma_enc_param_first(m.params[0]);
                    assert(s@[i0 as int] == (enc_params(m.params) + "]}"@)[0]);
                    assert(s@[i0 as int] == enc_param(m.params[0])[0]);
                    match m.params[0] {
                        ParamView::Str(t) => {
                            assert(s@[i0 as int] == '"');
                        },
                        ParamView::Bool(bb) => {
                            if bb {
                                assert(s@[i0 as int] == 't');
                            } else {
                                assert(s@[i0 as int] == 'f');
                            }
                        },
                    }
                    assert(false);
                }
                assert(m.params =~= params@.map_values(|p: MultipleTypes| p@));
            }
            assert(enc_params(params@.map_values(|p: MultipleTypes| p@)) == Seq::<
                char,
            >::empty());
            assert(s@.subrange(i0 as int, i as int) =~= seq![s@[i0 as int]]);
            assert(s@.subrange(i0 as int, i as int) =~= enc_params(
                params@.map_values(|p: MultipleTypes| p@),
            ) + seq![']']);
        }
    } else {
        proof {
            reveal_strlit("]}");
            assert(params@.map_values(|p: MultipleTypes| p@) =~= Seq::<ParamView>::empty());
            assert forall|m: RequestModel| is_request_form(s@, m) implies m.params.len() > 0
                && m.params.take(0) == params@.map_values(|p: MultipleTypes| p@) && s@.subrange(
                i as int,
                n as int,
            ) == enc_params(m.params.skip(0)) + "]}"@ by {
                if m.params.len() == 0 {
                    assert(enc_params(m.params) == Seq::<char>::empty());
                    assert(s@.subrange(i0 as int, n as int) =~= "]}"@);
                    lemma_suffix_index(s@, i0 as int, "]}"@, 0);
                    assert(s@[i0 as int] == ']');
                    assert(false);
                }
                assert(m.params.take(0) =~= params@.map_values(|p: MultipleTypes| p@));
                assert(m.params.skip(0) =~= m.params);
            }
        }
        loop
            invariant_except_break
                i < n,
                params@.len() == 0 ==> i == i0,
                params@.len() >= 1 ==> s@.subrange(i0 as int, i as int) == enc_params(
                    params@.map_values(|p: MultipleTypes| p@),
                ) + seq![','],
                forall|m: RequestModel|
                    is_request_form(s@, m) ==> ver@ == m.jsonrpc && mth@ == m.method && idv@
                        == m.id && (params@.len() as int) < m.params.len() && m.params.take(
                        params@.len() as int,
                    ) == params@.map_values(|p: MultipleTypes| p@) && s@.subrange(
                        i as int,
                        n as int,
                    ) == enc_params(m.params.skip(params@.len() as int)) + "]}"@,
            invariant
                i0 <= i <= n,
                n == s@.len(),
                forall|q: int|
                    0 <= q < params@.len() ==> (#[trigger] params@[q]@).wf(),
            ensures
                i0 <= i <= n,
                n == s@.len(),
                forall|q: int|
                    0 <= q < params@.len() ==> (#[trigger] params@[q]@).wf(),
                s@.subrange(i0 as int, i as int) == enc_params(
                    params@.map_values(|p: MultipleTypes| p@),
                ) + seq![']'],
                forall|m: RequestModel|
                    is_request_form(s@, m) ==> ver@ == m.jsonrpc && mth@ == m.method && idv@
                        == m.id && m.params == params@.map_values(|p: MultipleTypes| p@),
            decreases n - i,
        {
            let ghost gk = params@.len() as int;
            let ghost gps_old = params@.map_values(|p: MultipleTypes| p@);
            let ghost istart = i as int;
            let pp = parse_param(s, i);
            let (pval, inext) = match pp {
                Some(p) => p,
                None => {
                    proof {
                        assert forall|m: RequestModel| is_request_form(s@, m) implies false by {
                            lemma_enc_params_peel(m.params, gk);
                            lemma_enc_param_first(m.params[gk]);
                            let x = enc_params(m.params.skip(gk)) + "]}"@;
                            let el = enc_param(m.params[gk]).len() as int;
                            assert(x.len() == n - istart);
                            lemma_suffix_subrange(s@, istart, x, 0, el);
                            assert(x.subrange(0, el) =~= enc_param(m.params[gk]));
                            assert(s@.subrange(istart, istart + el) == enc_param(m.params[gk]));
                            assert((m.params[gk]).wf());
                        }
                    }
                    return Err(DecodeError::Malformed);
                },
            };
            let ghost gp_new = pval@;
            params.push(pval);
            i = inext;
            // One parameter consumed: the input from `istart` to `i` is its
            // encoding, and for every matching model it is parameter `gk`.
            let ghost gps_new = params@.map_values(|p: MultipleTypes| p@);
            proof {
                assert(params@.len() == gk + 1);
                assert(gps_new =~= gps_old.push(gp_new));
                assert(gp_new.wf());
                assert(s@.subrange(istart, i as int) == enc_param(gp_new));
                assert forall|q: int| 0 <= q < params@.len() implies (
                #[trigger] params@[q]@).wf() by {
                    if q < gk {
                        assert(params@[q]@ == gps_old[q]);
                    }
                }
                assert forall|m: RequestModel| is_request_form(s@, m) implies gps_new
                    == m.params.take(gk + 1) && s@.subrange(i as int, n as int) == (if gk + 1
                    == m.params.len() {
                    "]}"@
                } else {
                    seq![','] + enc_params(m.params.skip(gk + 1)) + "]}"@
                }) by {
                    lemma_enc_params_peel(m.params, gk);
                    lemma_enc_param_first(m.params[gk]);
                    let x = enc_params(m.params.skip(gk)) + "]}"@;
                    let el = enc_param(m.params[gk]).len() as int;
                    assert(x.len() == n - istart);
                    lemma_suffix_subrange(s@, istart, x, 0, el);
                    assert(x.subrange(0, el) =~= enc_param(m.params[gk]));
                    assert(s@.subrange(istart, istart + el) == enc_param(m.params[gk]));
                    assert((m.params[gk]).wf());
                    // This parameter reading is forced, so it is parameter gk.
                    assert(gp_new == m.params[gk] && i as int == istart + el);
                    assert(gps_new =~= m.params.take(gk + 1));
                    lemma_suffix_subrange(s@, istart, x, el, x.len() as int);
                    assert(s@.subrange(i as int, n as int) == x.subrange(el, x.len() as int));
                    if gk + 1 == m.params.len() {
                        assert(x.subrange(el, x.len() as int) =~= "]}"@);
                        assert(s@.subrange(i as int, n as int) =~= "]}"@);
                    } else {
                        assert(x.subrange(el, x.len() as int) =~= seq![','] + enc_params(
                            m.params.skip(gk + 1),
                        ) + "]}"@);
                        assert(s@.subrange(i as int, n as int) =~= seq![','] + enc_params(
                            m.params.skip(gk + 1),
                        ) + "]}"@);
                    }
                }
            }
            if i >= n {
                proof {
                    reveal_strlit("]}");
                    assert forall|m: RequestModel| is_request_form(s@, m) implies false by {
                        if gk + 1 == m.params.len() {
                            assert(s@.subrange(i as int, n as int).len() == 2);
                        } else {
                            lemma_enc_params_peel(m.params, gk + 1);
                            lemma_enc_param_first(m.params[gk + 1]);
                            assert(s@.subrange(i as int, n as int).len() >= 2);
                        }
                    }
                }
                return Err(DecodeError::Malformed);
            }
            let c2 = s.get_char(i);
            if c2 == ',' {
                proof {
                    assert forall|m: RequestModel| is_request_form(s@, m) implies (gk + 1)
                        < m.params.len() && s@.subrange(i + 1, n as int) == enc_params(
                        m.params.skip(gk + 1),
                    ) + "]}"@ by {
                        if gk + 1 == m.params.len() {
                            reveal_strlit("]}");
                            lemma_suffix_index(s@, i as int, "]}"@, 0);
                            assert(s@[i as int] == ']');
                            assert(false);
                        }
                        assert(s@.subrange(i + 1, n as int) =~= s@.subrange(
                            i as int,
                            n as int,
                        ).skip(1));
                        assert(s@.subrange(i + 1, n as int) =~= enc_params(
                            m.params.skip(gk + 1),
                        ) + "]}"@);
                    }
                    assert(s@.subrange(i0 as int, i + 1) =~= enc_params(gps_new)
                        + seq![',']) by {
                        assert(s@.subrange(i0 as int, i + 1) =~= s@.subrange(i0 as int, istart)
                            + s@.subrange(istart, i as int) + seq![s@[i as int]]);
                        assert(gps_new =~= gps_old + seq![gp_new]);
                        assert(gps_new[0] == gps_old.push(gp_new)[0]);
                        if gk == 0 {
                            assert(s@.subrange(i0 as int, istart) =~= Seq::<char>::empty());
                            assert(s@.subrange(istart, i as int) == enc_param(gp_new));
                            assert(gps_new.len() == 1);
                            assert(gps_new[0] == gp_new);
                            assert(enc_params(gps_new) == enc_param(gp_new));
                        } else {
                            assert(s@.subrange(i0 as int, istart) == enc_params(gps_old)
                                + seq![',']);
                            assert(s@.subrange(istart, i as int) == enc_param(gp_new));
                            lemma_enc_params_app(gps_old, seq![gp_new]);
                            assert(seq![gp_new][0] == gp_new);
                            assert(enc_params(seq![gp_new]) == enc_param(gp_new));
                        }
                    }
                }
                i = i + 1;
                if i >= n {
                    proof {
                        assert forall|m: RequestModel| is_request_form(s@, m) implies false by {
                            lemma_enc_params_peel(m.params, gk + 1);
                            lemma_enc_param_first(m.params[gk + 1]);
                            assert(s@.subrange(i as int, n as int).len() >= 3);
                        }
                    }
                    return Err(DecodeError::Malformed);
                }
            } else if c2 == ']' {
                proof {
                    assert forall|m: RequestModel| is_request_form(s@, m) implies m.params
                        == gps_new by {
                        if gk + 1 < m.params.len() {
                            lemma_suffix_index(
                                s@,
                                i as int,
                                seq![','] + enc_params(m.params.skip(gk + 1)) + "]}"@,
                                0,
                            );
                            assert(s@[i as int] == ',');
                            assert(false);
                        }
                        assert(m.params =~= m.params.take(gk + 1));
                    }
                    assert(s@.subrange(i0 as int, i + 1) =~= enc_params(gps_new)
                        + seq![']']) by {
                        assert(s@.subrange(i0 as int, i + 1) =~= s@.subrange(i0 as int, istart)
                            + s@.subrange(istart, i as int) + seq![s@[i as int]]);
                        assert(gps_new =~= gps_old + seq![gp_new]);
                        assert(gps_new[0] == gps_old.push(gp_new)[0]);
                        if gk == 0 {
                            assert(s@.subrange(i0 as int, istart) =~= Seq::<char>::empty());
                            assert(s@.subrange(istart, i as int) == enc_param(gp_new));
                            assert(gps_new.len() == 1);
                            assert(gps_new[0] == gp_new);
                            assert(enc_params(gps_new) == enc_param(gp_new));
                        } else {
                            assert(s@.subrange(i0 as int, istart) == enc_params(gps_old)
                                + seq![',']);
                            assert(s@.subrange(istart, i as int) == enc_param(gp_new));
                            lemma_enc_params_app(gps_old, seq![gp_new]);
                            assert(seq![gp_new][0] == gp_new);
                            assert(enc_params(seq![gp_new]) == enc_param(gp_new));
                        }
                    }
                }
                i = i + 1;
                break;
            } else {
                proof {
                    reveal_strlit("]}");
                    assert forall|m: RequestModel| is_request_form(s@, m) implies false by {
                        if gk + 1 == m.params.len() {
                            assert(s@[i as int] == "]}"@[0]);
                        } else {
                            lemma_enc_params_peel(m.params, gk + 1);
                            assert(s@[i as int] == (seq![','] + enc_params(
                                m.params.skip(gk + 1),
                            ) + "]}"@)[0]);
                        }
                    }
                }
                return Err(DecodeError::Malformed);
            }
        }
    }
    // The list is closed; only the closing brace may remain.
    if i >= n {
        proof {
            assert forall|m: RequestModel| is_request_form(s@, m) implies false by {
                lemma_request_shape(s@, m);
                assert(s@[s@.len() - 1] == '}') by {
                    reveal_strlit("]}");
                    assert(s@.subrange(
                        44 + (m.jsonrpc.len() as int) + (m.method.len() as int) + (m.id.len() as int),
                        s@.len() as int,
                    ).last() == '}');
                }
                assert(m.params == params@.map_values(|p: MultipleTypes| p@));
                assert(s@.subrange(i0 as int, i as int).len() == (enc_params(m.params).len() as int)
                    + 1);
            }
        }
        return Err(DecodeError::Malformed);
    }
    let cb = s.get_char(i);
    let ghost gps = params@.map_values(|p: MultipleTypes| p@);
    proof {
        reveal_strlit("]}");
        assert forall|m: RequestModel| is_request_form(s@, m) implies i + 1 == n && s@[i as int]
            == '}' by {
            lemma_request_shape(s@, m);
            assert(m.params == gps);
            assert(i0 == 44 + (m.jsonrpc.len() as int) + (m.method.len() as int) + (m.id.len() as int));
            assert(s@.subrange(i0 as int, i as int).len() == (enc_params(m.params).len() as int) + 1);
            assert(i as int == i0 + (enc_params(m.params).len() as int) + 1);
            assert(s@.subrange(i0 as int, n as int) == enc_params(m.params) + "]}"@);
            assert(s@[i as int] == (enc_params(m.params) + "]}"@)[i - i0]);
        }
    }
    if cb != '}' || i + 1 != n {
        proof {
            assert forall|m: RequestModel| is_request_form(s@, m) implies false by {}
        }
        return Err(DecodeError::Malformed);
    }
    let req = JsonRpcRequest { jsonrpc: ver, method: mth, id: idv, params };
    proof {
        let jl = req.jsonrpc@.len() as int;
        let ml = req.method@.len() as int;
        let il = req.id@.len() as int;
        let pl = enc_params(gps).len() as int;
        reveal_strlit("{\"jsonrpc\":\"");
        reveal_strlit(",\"method\":\"");
        reveal_strlit(",\"id\":\"");
        reveal_strlit(",\"params\":[");
        assert(req@.params == gps);
        assert(req@.wf());
        assert(i0 as int == 44 + jl + ml + il);
        assert(n as int == 46 + jl + ml + il + pl);
        assert(s@.subrange(13 + jl, 24 + jl) =~= ",\"method\":\""@) by {
            assert(s@.subrange(i2 as int, i2 + 11) == ",\"method\":\""@);
        }
        assert(s@.subrange(25 + jl + ml, 32 + jl + ml) =~= ",\"id\":\""@) by {
            assert(s@.subrange(i4 as int, i4 + 7) == ",\"id\":\""@);
        }
        assert(s@.subrange(33 + jl + ml + il, 44 + jl + ml + il) =~= ",\"params\":["@) by {
            assert(s@.subrange(i6 as int, i6 + 11) == ",\"params\":["@);
        }
        assert(s@[12 + jl] == '"');
        assert(s@[24 + jl + ml] == '"');
        assert(s@[32 + jl + ml + il] == '"');
        assert(s@.subrange(i0 as int, i0 + pl) =~= enc_params(gps)) by {
            assert forall|q: int| 0 <= q < pl implies s@.subrange(i0 as int, i0 + pl)[q]
                == enc_params(gps)[q] by {
                assert(s@.subrange(i0 as int, i as int)[q] == enc_params(gps)[q]);
                assert(s@.subrange(i0 as int, i as int)[q] == s@[i0 + q]);
            }
        }
        assert(s@[i0 + pl] == ']') by {
            assert(s@.subrange(i0 as int, i as int)[pl] == ']');
        }
        assert(s@[45 + jl + ml + il + pl] == '}');
        lemma_request_assemble(s@, req.jsonrpc@, req.method@, req.id@, gps);
        assert(req@ == RequestModel {
            jsonrpc: req.jsonrpc@,
            method: req.method@,
            id: req.id@,
            params: gps,
        });
        assert forall|m: RequestModel| is_request_form(s@, m) implies req@ == m by {
            lemma_request_shape(s@, m);
            assert(ver@ == m.jsonrpc && mth@ == m.method && idv@ == m.id);
            assert(m.params == gps);
        }
    }
    Ok(req)
}

impl JsonRpcResponse {
    /// Convert this response's hex-encoded result into an integer.
    ///
    /// The result string must carry the `0x` prefix and fit in a 64-bit
    /// signed integer; anything else is a numeric decode failure, kept
    /// apart from envelope decode failures.
    pub fn convert_result_from_hex(&self) -> (res: Result<i64, NumericDecodeError>)
        ensures
            res == spec_decode_quantity(self@.result),
    {
        decode_quantity(self.result.as_str())
    }
}

} // verus!
