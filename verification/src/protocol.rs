use vstd::prelude::*;

use crate::codec::{esc, p_str, starts_with};

verus! {

// ============================================================================
// Wire records
// ============================================================================

/// A client request, one self-delimiting JSON value on the stream.
pub enum Request {
    /// Look a key up; written as a JSON `Get` value.
    Get { key: String },
    /// Bind a key to a value; written as a JSON `Set` value.
    Put { key: String, value: String },
    /// Remove a key; written as a JSON `Remove` value.
    Remove { key: String },
}

/// The mathematical form of a request.
pub enum ReqModel {
    Get(Seq<char>),
    Put(Seq<char>, Seq<char>),
    Remove(Seq<char>),
}

impl View for Request {
    type V = ReqModel;

    open spec fn view(&self) -> ReqModel {
        match self {
            Request::Get { key } => ReqModel::Get(key@),
            Request::Put { key, value } => ReqModel::Put(key@, value@),
            Request::Remove { key } => ReqModel::Remove(key@),
        }
    }
}

/// The server's answer to a `Get`: the value, `None` for an absent key, or
/// the rendered error text.
pub enum GetResponse {
    Success(Option<String>),
    Failure(String),
}

/// The mathematical form of a `Get` answer.
pub enum GetRespModel {
    Success(Option<Seq<char>>),
    Failure(Seq<char>),
}

impl View for GetResponse {
    type V = GetRespModel;

    open spec fn view(&self) -> GetRespModel {
        match self {
            GetResponse::Success(ov) => GetRespModel::Success(
                match ov {
                    Some(v) => Some(v@),
                    None => None,
                },
            ),
            GetResponse::Failure(e) => GetRespModel::Failure(e@),
        }
    }
}

/// The server's answer to a `Set`.
pub enum SetResponse {
    Success,
    Failure(String),
}

/// The mathematical form of a `Set` answer.
pub enum SetRespModel {
    Success,
    Failure(Seq<char>),
}

impl View for SetResponse {
    type V = SetRespModel;

    open spec fn view(&self) -> SetRespModel {
        match self {
            SetResponse::Success => SetRespModel::Success,
            SetResponse::Failure(e) => SetRespModel::Failure(e@),
        }
    }
}

/// The server's answer to a `Remove`.
pub enum RemoveResponse {
    Success,
    Failure(String),
}

/// The mathematical form of a `Remove` answer.
pub enum RemoveRespModel {
    Success,
    Failure(Seq<char>),
}

impl View for RemoveResponse {
    type V = RemoveRespModel;

    open spec fn view(&self) -> RemoveRespModel {
        match self {
            RemoveResponse::Success => RemoveRespModel::Success,
            RemoveResponse::Failure(e) => RemoveRespModel::Failure(e@),
        }
    }
}

// ============================================================================
// Encodings
// ============================================================================

/// The opening characters of a `Get` request.
pub open spec fn get_open() -> Seq<char> {
    seq!['{', '"', 'G', 'e', 't', '"', ':', '{', '"', 'k', 'e', 'y', '"', ':', '"']
}

/// The opening characters of a `Set` request.
pub open spec fn setr_open() -> Seq<char> {
    seq!['{', '"', 'S', 'e', 't', '"', ':', '{', '"', 'k', 'e', 'y', '"', ':', '"']
}

/// The opening characters of a `Remove` request.
pub open spec fn rmr_open() -> Seq<char> {
    seq!['{', '"', 'R', 'e', 'm', 'o', 'v', 'e', '"', ':', '{', '"', 'k', 'e', 'y', '"', ':', '"']
}

/// The characters between the key and the value of a `Set` request.
pub open spec fn val_sep() -> Seq<char> {
    seq![',', '"', 'v', 'a', 'l', 'u', 'e', '"', ':', '"']
}

/// The closing characters of a request.
pub open spec fn obj_close() -> Seq<char> {
    seq!['}', '}']
}

/// The opening characters of a success answer carrying a string.
pub open spec fn ok_str_open() -> Seq<char> {
    seq!['{', '"', 'O', 'k', '"', ':', '"']
}

/// The whole success answer for an absent key.
pub open spec fn ok_null() -> Seq<char> {
    seq!['{', '"', 'O', 'k', '"', ':', 'n', 'u', 'l', 'l', '}']
}

/// The opening characters of a failure answer.
pub open spec fn err_open() -> Seq<char> {
    seq!['{', '"', 'E', 'r', 'r', '"', ':', '"']
}

/// The whole bare success answer.
pub open spec fn ok_bare() -> Seq<char> {
    seq!['"', 'O', 'k', '"']
}

/// The closing characters of an answer that carries a string.
pub open spec fn resp_close() -> Seq<char> {
    seq!['"', '}']
}

/// The encoding of a request.
pub open spec fn enc_req(r: ReqModel) -> Seq<char> {
    match r {
        ReqModel::Get(k) => get_open() + esc(k) + seq!['"'] + obj_close(),
        ReqModel::Put(k, v) => setr_open() + esc(k) + seq!['"'] + val_sep() + esc(v)
            + seq!['"'] + obj_close(),
        ReqModel::Remove(k) => rmr_open() + esc(k) + seq!['"'] + obj_close(),
    }
}

/// The encoding of a `Get` answer.
pub open spec fn enc_get_resp(r: GetRespModel) -> Seq<char> {
    match r {
        GetRespModel::Success(ov) => match ov {
            Some(v) => ok_str_open() + esc(v) + resp_close(),
            None => ok_null(),
        },
        GetRespModel::Failure(e) => err_open() + esc(e) + resp_close(),
    }
}

/// The encoding of a `Set` answer.
pub open spec fn enc_set_resp(r: SetRespModel) -> Seq<char> {
    match r {
        SetRespModel::Success => ok_bare(),
        SetRespModel::Failure(e) => err_open() + esc(e) + resp_close(),
    }
}

/// The encoding of a `Remove` answer.
pub open spec fn enc_rm_resp(r: RemoveRespModel) -> Seq<char> {
    match r {
        RemoveRespModel::Success => ok_bare(),
        RemoveRespModel::Failure(e) => err_open() + esc(e) + resp_close(),
    }
}

// ============================================================================
// Parsers, at the specification level
// ============================================================================

/// Parse exactly one request from the front of `s`.
pub open spec fn p_req(s: Seq<char>) -> Option<(ReqModel, int)> {
    if starts_with(s, get_open()) {
        match p_str(s.skip(15)) {
            Some((k, n)) => {
                if starts_with(s.skip(15 + n), obj_close()) {
                    Some((ReqModel::Get(k), 15 + n + 2))
                } else {
                    None
                }
            },
            None => None,
        }
    } else if starts_with(s, setr_open()) {
        match p_str(s.skip(15)) {
            Some((k, n)) => {
                if starts_with(s.skip(15 + n), val_sep()) {
                    match p_str(s.skip(15 + n + 10)) {
                        Some((v, n2)) => {
                            if starts_with(s.skip(15 + n + 10 + n2), obj_close()) {
                                Some((ReqModel::Put(k, v), 15 + n + 10 + n2 + 2))
                            } else {
                                None
                            }
                        },
                        None => None,
                    }
                } else {
                    None
                }
            },
            None => None,
        }
    } else if starts_with(s, rmr_open()) {
        match p_str(s.skip(18)) {
            Some((k, n)) => {
                if starts_with(s.skip(18 + n), obj_close()) {
                    Some((ReqModel::Remove(k), 18 + n + 2))
                } else {
                    None
                }
            },
            None => None,
        }
    } else {
        None
    }
}

/// Parse exactly one `Get` answer from the front of `s`.
pub open spec fn p_get_resp(s: Seq<char>) -> Option<(GetRespModel, int)> {
    if starts_with(s, ok_str_open()) {
        match p_str(s.skip(7)) {
            Some((v, n)) => {
                if starts_with(s.skip(7 + n), seq!['}']) {
                    Some((GetRespModel::Success(Some(v)), 7 + n + 1))
                } else {
                    None
                }
            },
            None => None,
        }
    } else if starts_with(s, ok_null()) {
        Some((GetRespModel::Success(None), 11))
    } else if starts_with(s, err_open()) {
        match p_str(s.skip(8)) {
            Some((e, n)) => {
                if starts_with(s.skip(8 + n), seq!['}']) {
                    Some((GetRespModel::Failure(e), 8 + n + 1))
                } else {
                    None
                }
            },
            None => None,
        }
    } else {
        None
    }
}

/// Parse exactly one `Set` answer from the front of `s`.
pub open spec fn p_set_resp(s: Seq<char>) -> Option<(SetRespModel, int)> {
    if starts_with(s, ok_bare()) {
        Some((SetRespModel::Success, 4))
    } else if starts_with(s, err_open()) {
        match p_str(s.skip(8)) {
            Some((e, n)) => {
                if starts_with(s.skip(8 + n), seq!['}']) {
                    Some((SetRespModel::Failure(e), 8 + n + 1))
                } else {
                    None
                }
            },
            None => None,
        }
    } else {
        None
    }
}

/// Parse exactly one `Remove` answer from the front of `s`.
pub open spec fn p_rm_resp(s: Seq<char>) -> Option<(RemoveRespModel, int)> {
    if starts_with(s, ok_bare()) {
        Some((RemoveRespModel::Success, 4))
    } else if starts_with(s, err_open()) {
        match p_str(s.skip(8)) {
            Some((e, n)) => {
                if starts_with(s.skip(8 + n), seq!['}']) {
                    Some((RemoveRespModel::Failure(e), 8 + n + 1))
                } else {
                    None
                }
            },
            None => None,
        }
    } else {
        None
    }
}

// ============================================================================
// Executable codec
// ============================================================================

/// Match a literal at `start`, yielding the position just past it.
fn expect_lit(data: &Vec<char>, start: usize, lit: &Vec<char>) -> (r: crate::codec::Decoded<()>)
    requires
        start <= data@.len(),
    ensures
        match r {
            crate::codec::Decoded::Done(_, end) => end as int == start as int + lit@.len()
                && end <= data@.len() && starts_with(data@.skip(start as int), lit@),
            _ => !starts_with(data@.skip(start as int), lit@),
        },
{
    let ghost s = data@.skip(start as int);
    let n = data.len();
    proof {
        assert(data@.len() == n as int);
    }
    if n - start < lit.len() {
        return crate::codec::Decoded::Incomplete;
    }
    let mut i: usize = 0;
    while i < lit.len()
        invariant
            start <= data@.len(),
            data@.len() <= usize::MAX,
            s == data@.skip(start as int),
            lit@.len() <= data@.len() - start,
            0 <= i <= lit@.len(),
            forall|t: int| 0 <= t < i ==> s[t] == lit@[t],
        decreases lit@.len() - i,
    {
        if data[start + i] != lit[i] {
            proof {
                assert(!starts_with(s, lit@)) by {
                    if starts_with(s, lit@) {
                        assert(s.subrange(0, lit@.len() as int)[i as int] == s[i as int]);
                    }
                }
            }
            return crate::codec::Decoded::Malformed;
        }
        proof {
            assert(s[i as int] == lit@[i as int]);
        }
        i = i + 1;
    }
    proof {
        assert(s.subrange(0, lit@.len() as int) =~= lit@);
    }
    crate::codec::Decoded::Done((), start + lit.len())
}

/// The characters of `get_open`.
fn get_open_lit() -> (r: Vec<char>)
    ensures
        r@ == get_open(),
{
    let r = vec!['{', '"', 'G', 'e', 't', '"', ':', '{', '"', 'k', 'e', 'y', '"', ':', '"'];
    proof {
        assert(r@ =~= get_open());
    }
    r
}

/// The characters of `setr_open`.
fn setr_open_lit() -> (r: Vec<char>)
    ensures
        r@ == setr_open(),
{
    let r = vec!['{', '"', 'S', 'e', 't', '"', ':', '{', '"', 'k', 'e', 'y', '"', ':', '"'];
    proof {
        assert(r@ =~= setr_open());
    }
    r
}

/// The characters of `rmr_open`.
fn rmr_open_lit() -> (r: Vec<char>)
    ensures
        r@ == rmr_open(),
{
    let r = vec![
        '{',
        '"',
        'R',
        'e',
        'm',
        'o',
        'v',
        'e',
        '"',
        ':',
        '{',
        '"',
        'k',
        'e',
        'y',
        '"',
        ':',
        '"',
    ];
    proof {
        assert(r@ =~= rmr_open());
    }
    r
}

/// The characters of `val_sep`.
fn val_sep_lit() -> (r: Vec<char>)
    ensures
        r@ == val_sep(),
{
    let r = vec![',', '"', 'v', 'a', 'l', 'u', 'e', '"', ':', '"'];
    proof {
        assert(r@ =~= val_sep());
    }
    r
}

/// The characters of `obj_close`.
fn obj_close_lit() -> (r: Vec<char>)
    ensures
        r@ == obj_close(),
{
    let r = vec!['}', '}'];
    proof {
        assert(r@ =~= obj_close());
    }
    r
}

/// The characters of `ok_str_open`.
fn ok_str_open_lit() -> (r: Vec<char>)
    ensures
        r@ == ok_str_open(),
{
    let r = vec!['{', '"', 'O', 'k', '"', ':', '"'];
    proof {
        assert(r@ =~= ok_str_open());
    }
    r
}

/// The characters of `ok_null`.
fn ok_null_lit() -> (r: Vec<char>)
    ensures
        r@ == ok_null(),
{
    let r = vec!['{', '"', 'O', 'k', '"', ':', 'n', 'u', 'l', 'l', '}'];
    proof {
        assert(r@ =~= ok_null());
    }
    r
}

/// The characters of `err_open`.
fn err_open_lit() -> (r: Vec<char>)
    ensures
        r@ == err_open(),
{
    let r = vec!['{', '"', 'E', 'r', 'r', '"', ':', '"'];
    proof {
        assert(r@ =~= err_open());
    }
    r
}

/// The characters of `ok_bare`.
fn ok_bare_lit() -> (r: Vec<char>)
    ensures
        r@ == ok_bare(),
{
    let r = vec!['"', 'O', 'k', '"'];
    proof {
        assert(r@ =~= ok_bare());
    }
    r
}

/// The characters of `resp_close`.
fn resp_close_lit() -> (r: Vec<char>)
    ensures
        r@ == resp_close(),
{
    let r = vec!['"', '}'];
    proof {
        assert(r@ =~= resp_close());
    }
    r
}

/// Encode one request as its canonical JSON form.
pub fn encode_request(r: &Request) -> (out: Vec<char>)
    ensures
        out@ == enc_req(r@),
{
    let mut out: Vec<char> = Vec::new();
    match r {
        Request::Get { key } => {
            let kc = crate::text::chars_of(key.as_str());
            out.extend_from_slice(get_open_lit().as_slice());
            crate::codec::write_escaped(&mut out, &kc);
            out.push('"');
            out.push('}');
            out.push('}');
            proof {
                assert(out@ =~= get_open() + esc(key@) + seq!['"'] + obj_close());
            }
        },
        Request::Put { key, value } => {
            let kc = crate::text::chars_of(key.as_str());
            let vc = crate::text::chars_of(value.as_str());
            out.extend_from_slice(setr_open_lit().as_slice());
            crate::codec::write_escaped(&mut out, &kc);
            out.push('"');
            out.extend_from_slice(val_sep_lit().as_slice());
            crate::codec::write_escaped(&mut out, &vc);
            out.push('"');
            out.push('}');
            out.push('}');
            proof {
                assert(out@ =~= setr_open() + esc(key@) + seq!['"'] + val_sep() + esc(value@)
                    + seq!['"'] + obj_close());
            }
        },
        Request::Remove { key } => {
            let kc = crate::text::chars_of(key.as_str());
            out.extend_from_slice(rmr_open_lit().as_slice());
            crate::codec::write_escaped(&mut out, &kc);
            out.push('"');
            out.push('}');
            out.push('}');
            proof {
                assert(out@ =~= rmr_open() + esc(key@) + seq!['"'] + obj_close());
            }
        },
    }
    out
}

/// Encode one `Get` answer as its canonical JSON form.
pub fn encode_get_response(r: &GetResponse) -> (out: Vec<char>)
    ensures
        out@ == enc_get_resp(r@),
{
    let mut out: Vec<char> = Vec::new();
    match r {
        GetResponse::Success(ov) => match ov {
            Some(v) => {
                let vc = crate::text::chars_of(v.as_str());
                out.extend_from_slice(ok_str_open_lit().as_slice());
                crate::codec::write_escaped(&mut out, &vc);
                out.push('"');
                out.push('}');
                proof {
                    assert(out@ =~= ok_str_open() + esc(v@) + resp_close());
                }
            },
            None => {
                out.extend_from_slice(ok_null_lit().as_slice());
                proof {
                    assert(out@ =~= ok_null());
                }
            },
        },
        GetResponse::Failure(e) => {
            let ec = crate::text::chars_of(e.as_str());
            out.extend_from_slice(err_open_lit().as_slice());
            crate::codec::write_escaped(&mut out, &ec);
            out.push('"');
            out.push('}');
            proof {
                assert(out@ =~= err_open() + esc(e@) + resp_close());
            }
        },
    }
    out
}

/// Encode one `Set` answer as its canonical JSON form.
pub fn encode_set_response(r: &SetResponse) -> (out: Vec<char>)
    ensures
        out@ == enc_set_resp(r@),
{
    let mut out: Vec<char> = Vec::new();
    match r {
        SetResponse::Success => {
            out.extend_from_slice(ok_bare_lit().as_slice());
            proof {
                assert(out@ =~= ok_bare());
            }
        },
        SetResponse::Failure(e) => {
            let ec = crate::text::chars_of(e.as_str());
            out.extend_from_slice(err_open_lit().as_slice());
            crate::codec::write_escaped(&mut out, &ec);
            out.push('"');
            out.push('}');
            proof {
                assert(out@ =~= err_open() + esc(e@) + resp_close());
            }
        },
    }
    out
}

/// Encode one `Remove` answer as its canonical JSON form.
pub fn encode_rm_response(r: &RemoveResponse) -> (out: Vec<char>)
    ensures
        out@ == enc_rm_resp(r@),
{
    let mut out: Vec<char> = Vec::new();
    match r {
        RemoveResponse::Success => {
            out.extend_from_slice(ok_bare_lit().as_slice());
            proof {
                assert(out@ =~= ok_bare());
            }
        },
        RemoveResponse::Failure(e) => {
            let ec = crate::text::chars_of(e.as_str());
            out.extend_from_slice(err_open_lit().as_slice());
            crate::codec::write_escaped(&mut out, &ec);
            out.push('"');
            out.push('}');
            proof {
                assert(out@ =~= err_open() + esc(e@) + resp_close());
            }
        },
    }
    out
}

/// Decode exactly one request starting at `start`.
#[verifier::rlimit(60)]
pub fn decode_request(data: &Vec<char>, start: usize) -> (r: crate::codec::Decoded<Request>)
    requires
        start <= data@.len(),
    ensures
        match r {
            crate::codec::Decoded::Done(q, end) => start < end <= data@.len() && p_req(
                data@.skip(start as int),
            ) == Some((q@, end as int - start as int)),
            _ => p_req(data@.skip(start as int)) is None,
        },
{
    let ghost s = data@.skip(start as int);
    match expect_lit(data, start, &get_open_lit()) {
        crate::codec::Decoded::Done(_, p1) => {
            proof {
                assert(data@.skip(p1 as int) =~= s.skip(15));
            }
            match crate::codec::decode_str(data, p1) {
                crate::codec::Decoded::Done(k, end1) => {
                    let ghost n = end1 as int - p1 as int;
                    proof {
                        assert(data@.skip(end1 as int) =~= s.skip(15 + n));
                    }
                    match expect_lit(data, end1, &obj_close_lit()) {
                        crate::codec::Decoded::Done(_, end2) => {
                            let q = Request::Get { key: crate::text::string_from_chars(&k) };
                            crate::codec::Decoded::Done(q, end2)
                        },
                        crate::codec::Decoded::Incomplete => crate::codec::Decoded::Incomplete,
                        crate::codec::Decoded::Malformed => crate::codec::Decoded::Malformed,
                    }
                },
                crate::codec::Decoded::Incomplete => crate::codec::Decoded::Incomplete,
                crate::codec::Decoded::Malformed => crate::codec::Decoded::Malformed,
            }
        },
        _ => {
            match expect_lit(data, start, &setr_open_lit()) {
                crate::codec::Decoded::Done(_, p1) => {
                    proof {
                        assert(data@.skip(p1 as int) =~= s.skip(15));
                    }
                    match crate::codec::decode_str(data, p1) {
                        crate::codec::Decoded::Done(k, end1) => {
                            let ghost n = end1 as int - p1 as int;
                            proof {
                                assert(data@.skip(end1 as int) =~= s.skip(15 + n));
                            }
                            match expect_lit(data, end1, &val_sep_lit()) {
                                crate::codec::Decoded::Done(_, p2) => {
                                    proof {
                                        assert(data@.skip(p2 as int) =~= s.skip(15 + n + 10));
                                    }
                                    match crate::codec::decode_str(data, p2) {
                                        crate::codec::Decoded::Done(v, end2) => {
                                            let ghost n2 = end2 as int - p2 as int;
                                            proof {
                                                assert(data@.skip(end2 as int) =~= s.skip(
                                                    15 + n + 10 + n2,
                                                ));
                                            }
                                            match expect_lit(data, end2, &obj_close_lit()) {
                                                crate::codec::Decoded::Done(_, end3) => {
                                                    let q = Request::Put {
                                                        key: crate::text::string_from_chars(&k),
                                                        value: crate::text::string_from_chars(&v),
                                                    };
                                                    crate::codec::Decoded::Done(q, end3)
                                                },
                                                crate::codec::Decoded::Incomplete => crate::codec::Decoded::Incomplete,
                                                crate::codec::Decoded::Malformed => crate::codec::Decoded::Malformed,
                                            }
                                        },
                                        crate::codec::Decoded::Incomplete => crate::codec::Decoded::Incomplete,
                                        crate::codec::Decoded::Malformed => crate::codec::Decoded::Malformed,
                                    }
                                },
                                crate::codec::Decoded::Incomplete => crate::codec::Decoded::Incomplete,
                                crate::codec::Decoded::Malformed => crate::codec::Decoded::Malformed,
                            }
                        },
                        crate::codec::Decoded::Incomplete => crate::codec::Decoded::Incomplete,
                        crate::codec::Decoded::Malformed => crate::codec::Decoded::Malformed,
                    }
                },
                _ => {
                    match expect_lit(data, start, &rmr_open_lit()) {
                        crate::codec::Decoded::Done(_, p1) => {
                            proof {
                                assert(data@.skip(p1 as int) =~= s.skip(18));
                            }
                            match crate::codec::decode_str(data, p1) {
                                crate::codec::Decoded::Done(k, end1) => {
                                    let ghost n = end1 as int - p1 as int;
                                    proof {
                                        assert(data@.skip(end1 as int) =~= s.skip(18 + n));
                                    }
                                    match expect_lit(data, end1, &obj_close_lit()) {
                                        crate::codec::Decoded::Done(_, end2) => {
                                            let q = Request::Remove {
                                                key: crate::text::string_from_chars(&k),
                                            };
                                            crate::codec::Decoded::Done(q, end2)
                                        },
                                        crate::codec::Decoded::Incomplete => crate::codec::Decoded::Incomplete,
                                        crate::codec::Decoded::Malformed => crate::codec::Decoded::Malformed,
                                    }
                                },
                                crate::codec::Decoded::Incomplete => crate::codec::Decoded::Incomplete,
                                crate::codec::Decoded::Malformed => crate::codec::Decoded::Malformed,
                            }
                        },
                        crate::codec::Decoded::Incomplete => crate::codec::Decoded::Incomplete,
                        crate::codec::Decoded::Malformed => crate::codec::Decoded::Malformed,
                    }
                },
            }
        },
    }
}

/// Decode exactly one `Get` answer starting at `start`.
#[verifier::rlimit(60)]
pub fn decode_get_response(data: &Vec<char>, start: usize) -> (r: crate::codec::Decoded<
    GetResponse,
>)
    requires
        start <= data@.len(),
    ensures
        match r {
            crate::codec::Decoded::Done(q, end) => start < end <= data@.len() && p_get_resp(
                data@.skip(start as int),
            ) == Some((q@, end as int - start as int)),
            _ => p_get_resp(data@.skip(start as int)) is None,
        },
{
    let ghost s = data@.skip(start as int);
    match expect_lit(data, start, &ok_str_open_lit()) {
        crate::codec::Decoded::Done(_, p1) => {
            proof {
                assert(data@.skip(p1 as int) =~= s.skip(7));
            }
            match crate::codec::decode_str(data, p1) {
                crate::codec::Decoded::Done(v, end1) => {
                    let ghost n = end1 as int - p1 as int;
                    proof {
                        assert(data@.skip(end1 as int) =~= s.skip(7 + n));
                    }
                    if end1 < data.len() && data[end1] == '}' {
                        proof {
                            assert(s.skip(7 + n).subrange(0, 1) =~= seq!['}']);
                        }
                        let q = GetResponse::Success(Some(crate::text::string_from_chars(&v)));
                        crate::codec::Decoded::Done(q, end1 + 1)
                    } else if end1 == data.len() {
                        proof {
                            assert(!starts_with(s.skip(7 + n), seq!['}']));
                        }
                        crate::codec::Decoded::Incomplete
                    } else {
                        proof {
                            assert(!starts_with(s.skip(7 + n), seq!['}'])) by {
                                if starts_with(s.skip(7 + n), seq!['}']) {
                                    assert(s.skip(7 + n).subrange(0, 1)[0] == s.skip(7 + n)[0]);
                                }
                            }
                        }
                        crate::codec::Decoded::Malformed
                    }
                },
                crate::codec::Decoded::Incomplete => crate::codec::Decoded::Incomplete,
                crate::codec::Decoded::Malformed => crate::codec::Decoded::Malformed,
            }
        },
        _ => {
            match expect_lit(data, start, &ok_null_lit()) {
                crate::codec::Decoded::Done(_, end) => {
                    crate::codec::Decoded::Done(GetResponse::Success(None), end)
                },
                _ => {
                    match expect_lit(data, start, &err_open_lit()) {
                        crate::codec::Decoded::Done(_, p1) => {
                            proof {
                                assert(data@.skip(p1 as int) =~= s.skip(8));
                            }
                            match crate::codec::decode_str(data, p1) {
                                crate::codec::Decoded::Done(e, end1) => {
                                    let ghost n = end1 as int - p1 as int;
                                    proof {
                                        assert(data@.skip(end1 as int) =~= s.skip(8 + n));
                                    }
                                    if end1 < data.len() && data[end1] == '}' {
                                        proof {
                                            assert(s.skip(8 + n).subrange(0, 1) =~= seq!['}']);
                                        }
                                        let q = GetResponse::Failure(
                                            crate::text::string_from_chars(&e),
                                        );
                                        crate::codec::Decoded::Done(q, end1 + 1)
                                    } else if end1 == data.len() {
                                        proof {
                                            assert(!starts_with(s.skip(8 + n), seq!['}']));
                                        }
                                        crate::codec::Decoded::Incomplete
                                    } else {
                                        proof {
                                            assert(!starts_with(s.skip(8 + n), seq!['}'])) by {
                                                if starts_with(s.skip(8 + n), seq!['}']) {
                                                    assert(s.skip(8 + n).subrange(0, 1)[0]
                                                        == s.skip(8 + n)[0]);
                                                }
                                            }
                                        }
                                        crate::codec::Decoded::Malformed
                                    }
                                },
                                crate::codec::Decoded::Incomplete => crate::codec::Decoded::Incomplete,
                                crate::codec::Decoded::Malformed => crate::codec::Decoded::Malformed,
                            }
                        },
                        crate::codec::Decoded::Incomplete => crate::codec::Decoded::Incomplete,
                        crate::codec::Decoded::Malformed => crate::codec::Decoded::Malformed,
                    }
                },
            }
        },
    }
}

/// Decode a bare or failure status answer: the shared shape of `Set` and
/// `Remove` answers. `Done(None, end)` is the bare success; `Done(Some(e),
/// end)` the failure text.
#[verifier::rlimit(60)]
fn decode_status(data: &Vec<char>, start: usize) -> (r: crate::codec::Decoded<Option<String>>)
    requires
        start <= data@.len(),
    ensures
        match r {
            crate::codec::Decoded::Done(q, end) => start < end <= data@.len() && (match q {
                None => starts_with(data@.skip(start as int), ok_bare()) && end as int - start
                    as int == 4,
                Some(e) => !starts_with(data@.skip(start as int), ok_bare()) && starts_with(
                    data@.skip(start as int),
                    err_open(),
                ) && (match p_str(data@.skip(start as int + 8)) {
                    Some((t, n)) => e@ == t && starts_with(
                        data@.skip(start as int).skip(8 + n),
                        seq!['}'],
                    ) && end as int - start as int == 8 + n + 1,
                    None => false,
                }),
            }),
            _ => !starts_with(data@.skip(start as int), ok_bare()) && (match p_str(
                data@.skip(start as int + 8),
            ) {
                Some((t, n)) => !starts_with(data@.skip(start as int), err_open())
                    || !starts_with(data@.skip(start as int).skip(8 + n), seq!['}']),
                None => true,
            }),
        },
{
    let ghost s = data@.skip(start as int);
    match expect_lit(data, start, &ok_bare_lit()) {
        crate::codec::Decoded::Done(_, end) => {
            crate::codec::Decoded::Done(None, end)
        },
        _ => {
            match expect_lit(data, start, &err_open_lit()) {
                crate::codec::Decoded::Done(_, p1) => {
                    proof {
                        assert(data@.skip(p1 as int) =~= s.skip(8));
                        assert(data@.skip(start as int + 8) =~= s.skip(8));
                    }
                    match crate::codec::decode_str(data, p1) {
                        crate::codec::Decoded::Done(e, end1) => {
                            let ghost n = end1 as int - p1 as int;
                            proof {
                                assert(data@.skip(end1 as int) =~= s.skip(8 + n));
                            }
                            if end1 < data.len() && data[end1] == '}' {
                                proof {
                                    assert(s.skip(8 + n).subrange(0, 1) =~= seq!['}']);
                                }
                                crate::codec::Decoded::Done(
                                    Some(crate::text::string_from_chars(&e)),
                                    end1 + 1,
                                )
                            } else if end1 == data.len() {
                                proof {
                                    assert(!starts_with(s.skip(8 + n), seq!['}']));
                                }
                                crate::codec::Decoded::Incomplete
                            } else {
                                proof {
                                    assert(!starts_with(s.skip(8 + n), seq!['}'])) by {
                                        if starts_with(s.skip(8 + n), seq!['}']) {
                                            assert(s.skip(8 + n).subrange(0, 1)[0] == s.skip(
                                                8 + n,
                                            )[0]);
                                        }
                                    }
                                }
                                crate::codec::Decoded::Malformed
                            }
                        },
                        crate::codec::Decoded::Incomplete => crate::codec::Decoded::Incomplete,
                        crate::codec::Decoded::Malformed => crate::codec::Decoded::Malformed,
                    }
                },
                crate::codec::Decoded::Incomplete => crate::codec::Decoded::Incomplete,
                crate::codec::Decoded::Malformed => crate::codec::Decoded::Malformed,
            }
        },
    }
}

/// Decode exactly one `Set` answer starting at `start`.
pub fn decode_set_response(data: &Vec<char>, start: usize) -> (r: crate::codec::Decoded<
    SetResponse,
>)
    requires
        start <= data@.len(),
    ensures
        match r {
            crate::codec::Decoded::Done(q, end) => start < end <= data@.len() && p_set_resp(
                data@.skip(start as int),
            ) == Some((q@, end as int - start as int)),
            _ => p_set_resp(data@.skip(start as int)) is None,
        },
{
    proof {
        if start + 8 <= data@.len() {
            assert(data@.skip(start as int + 8) =~= data@.skip(start as int).skip(8));
        }
    }
    match decode_status(data, start) {
        crate::codec::Decoded::Done(None, end) => {
            crate::codec::Decoded::Done(SetResponse::Success, end)
        },
        crate::codec::Decoded::Done(Some(e), end) => {
            crate::codec::Decoded::Done(SetResponse::Failure(e), end)
        },
        crate::codec::Decoded::Incomplete => crate::codec::Decoded::Incomplete,
        crate::codec::Decoded::Malformed => crate::codec::Decoded::Malformed,
    }
}

/// Decode exactly one `Remove` answer starting at `start`.
pub fn decode_rm_response(data: &Vec<char>, start: usize) -> (r: crate::codec::Decoded<
    RemoveResponse,
>)
    requires
        start <= data@.len(),
    ensures
        match r {
            crate::codec::Decoded::Done(q, end) => start < end <= data@.len() && p_rm_resp(
                data@.skip(start as int),
            ) == Some((q@, end as int - start as int)),
            _ => p_rm_resp(data@.skip(start as int)) is None,
        },
{
    proof {
        if start + 8 <= data@.len() {
            assert(data@.skip(start as int + 8) =~= data@.skip(start as int).skip(8));
        }
    }
    match decode_status(data, start) {
        crate::codec::Decoded::Done(None, end) => {
            crate::codec::Decoded::Done(RemoveResponse::Success, end)
        },
        crate::codec::Decoded::Done(Some(e), end) => {
            crate::codec::Decoded::Done(RemoveResponse::Failure(e), end)
        },
        crate::codec::Decoded::Incomplete => crate::codec::Decoded::Incomplete,
        crate::codec::Decoded::Malformed => crate::codec::Decoded::Malformed,
    }
}

impl GetResponse {
    /// What the client hands its caller: the value, or the server's error
    /// text as a `StringError`.
    pub fn into_result(self) -> (r: Result<Option<String>, crate::error::KvsError>)
        ensures
            match self@ {
                GetRespModel::Success(ov) => r matches Ok(o) && (match o {
                    Some(v) => ov matches Some(w) && v@ == w,
                    None => ov is None,
                }),
                GetRespModel::Failure(e) => r matches Err(err) && err matches
                    crate::error::KvsError::StringError(m) && m@ == e,
            },
    {
        match self {
            GetResponse::Success(ov) => Ok(ov),
            GetResponse::Failure(e) => Err(crate::error::KvsError::StringError(e)),
        }
    }
}

impl SetResponse {
    /// What the client hands its caller.
    pub fn into_result(self) -> (r: Result<(), crate::error::KvsError>)
        ensures
            match self@ {
                SetRespModel::Success => r is Ok,
                SetRespModel::Failure(e) => r matches Err(err) && err matches
                    crate::error::KvsError::StringError(m) && m@ == e,
            },
    {
        match self {
            SetResponse::Success => Ok(()),
            SetResponse::Failure(e) => Err(crate::error::KvsError::StringError(e)),
        }
    }
}

impl RemoveResponse {
    /// What the client hands its caller.
    pub fn into_result(self) -> (r: Result<(), crate::error::KvsError>)
        ensures
            match self@ {
                RemoveRespModel::Success => r is Ok,
                RemoveRespModel::Failure(e) => r matches Err(err) && err matches
                    crate::error::KvsError::StringError(m) && m@ == e,
            },
    {
        match self {
            RemoveResponse::Success => Ok(()),
            RemoveResponse::Failure(e) => Err(crate::error::KvsError::StringError(e)),
        }
    }
}

// ============================================================================
// Round trips
// ============================================================================

/// Protocol round trip, request side: any request's encoding, followed by
/// whatever else arrives on the stream, parses back to exactly that request,
/// consuming exactly the encoding. So each request on a connection is read
/// once and whole, in order.
#[verifier::rlimit(60)]
pub proof fn lemma_p_req_complete(r: ReqModel, rest: Seq<char>)
    ensures
        p_req(enc_req(r) + rest) == Some((r, enc_req(r).len() as int)),
{
    let s = enc_req(r) + rest;
    match r {
        ReqModel::Get(k) => {
            let after_k = obj_close() + rest;
            assert(s =~= get_open() + (esc(k) + seq!['"'] + after_k));
            assert(s.subrange(0, 15) =~= get_open());
            assert(starts_with(s, get_open()));
            assert(s.skip(15) =~= esc(k) + seq!['"'] + after_k);
            crate::codec::lemma_p_str_complete(k, after_k);
            let n = esc(k).len() as int + 1;
            assert(s.skip(15 + n) =~= after_k);
            assert(after_k.subrange(0, 2) =~= obj_close());
            assert(starts_with(after_k, obj_close()));
            assert(enc_req(r).len() == 15 + n + 2);
        },
        ReqModel::Put(k, v) => {
            let after_v = obj_close() + rest;
            let after_k = val_sep() + (esc(v) + seq!['"'] + after_v);
            assert(s =~= setr_open() + (esc(k) + seq!['"'] + after_k));
            assert(s[2] == 'S');
            assert(get_open()[2] == 'G');
            assert(!starts_with(s, get_open())) by {
                if starts_with(s, get_open()) {
                    assert(s.subrange(0, 15)[2] == s[2]);
                }
            }
            assert(s.subrange(0, 15) =~= setr_open());
            assert(starts_with(s, setr_open()));
            assert(s.skip(15) =~= esc(k) + seq!['"'] + after_k);
            crate::codec::lemma_p_str_complete(k, after_k);
            let n = esc(k).len() as int + 1;
            assert(s.skip(15 + n) =~= after_k);
            assert(after_k.subrange(0, 10) =~= val_sep());
            assert(starts_with(after_k, val_sep()));
            assert(s.skip(15 + n + 10) =~= esc(v) + seq!['"'] + after_v);
            crate::codec::lemma_p_str_complete(v, after_v);
            let n2 = esc(v).len() as int + 1;
            assert(s.skip(15 + n + 10 + n2) =~= after_v);
            assert(after_v.subrange(0, 2) =~= obj_close());
            assert(starts_with(after_v, obj_close()));
            assert(enc_req(r).len() == 15 + n + 10 + n2 + 2);
        },
        ReqModel::Remove(k) => {
            let after_k = obj_close() + rest;
            assert(s =~= rmr_open() + (esc(k) + seq!['"'] + after_k));
            assert(s[2] == 'R');
            assert(get_open()[2] == 'G');
            assert(setr_open()[2] == 'S');
            assert(!starts_with(s, get_open())) by {
                if starts_with(s, get_open()) {
                    assert(s.subrange(0, 15)[2] == s[2]);
                }
            }
            assert(!starts_with(s, setr_open())) by {
                if starts_with(s, setr_open()) {
                    assert(s.subrange(0, 15)[2] == s[2]);
                }
            }
            assert(s.subrange(0, 18) =~= rmr_open());
            assert(starts_with(s, rmr_open()));
            assert(s.skip(18) =~= esc(k) + seq!['"'] + after_k);
            crate::codec::lemma_p_str_complete(k, after_k);
            let n = esc(k).len() as int + 1;
            assert(s.skip(18 + n) =~= after_k);
            assert(after_k.subrange(0, 2) =~= obj_close());
            assert(starts_with(after_k, obj_close()));
            assert(enc_req(r).len() == 18 + n + 2);
        },
    }
}

/// Protocol round trip, `Get` answer: the encoding, followed by anything,
/// parses back to exactly the answer.
#[verifier::rlimit(60)]
pub proof fn lemma_p_get_resp_complete(r: GetRespModel, rest: Seq<char>)
    ensures
        p_get_resp(enc_get_resp(r) + rest) == Some((r, enc_get_resp(r).len() as int)),
{
    let s = enc_get_resp(r) + rest;
    match r {
        GetRespModel::Success(ov) => match ov {
            Some(v) => {
                let after_v = seq!['}'] + rest;
                assert(s =~= ok_str_open() + (esc(v) + seq!['"'] + after_v));
                assert(s.subrange(0, 7) =~= ok_str_open());
                assert(starts_with(s, ok_str_open()));
                assert(s.skip(7) =~= esc(v) + seq!['"'] + after_v);
                crate::codec::lemma_p_str_complete(v, after_v);
                let n = esc(v).len() as int + 1;
                assert(s.skip(7 + n) =~= after_v);
                assert(after_v.subrange(0, 1) =~= seq!['}']);
                assert(starts_with(after_v, seq!['}']));
                assert(enc_get_resp(r).len() == 7 + n + 1);
            },
            None => {
                assert(s =~= ok_null() + rest);
                assert(s[6] == 'n');
                assert(ok_str_open()[6] == '"');
                assert(!starts_with(s, ok_str_open())) by {
                    if starts_with(s, ok_str_open()) {
                        assert(s.subrange(0, 7)[6] == s[6]);
                    }
                }
                assert(s.subrange(0, 11) =~= ok_null());
                assert(starts_with(s, ok_null()));
            },
        },
        GetRespModel::Failure(e) => {
            let after_e = seq!['}'] + rest;
            assert(s =~= err_open() + (esc(e) + seq!['"'] + after_e));
            assert(s[2] == 'E');
            assert(ok_str_open()[2] == 'O');
            assert(ok_null()[2] == 'O');
            assert(!starts_with(s, ok_str_open())) by {
                if starts_with(s, ok_str_open()) {
                    assert(s.subrange(0, 7)[2] == s[2]);
                }
            }
            assert(!starts_with(s, ok_null())) by {
                if starts_with(s, ok_null()) {
                    assert(s.subrange(0, 11)[2] == s[2]);
                }
            }
            assert(s.subrange(0, 8) =~= err_open());
            assert(starts_with(s, err_open()));
            assert(s.skip(8) =~= esc(e) + seq!['"'] + after_e);
            crate::codec::lemma_p_str_complete(e, after_e);
            let n = esc(e).len() as int + 1;
            assert(s.skip(8 + n) =~= after_e);
            assert(after_e.subrange(0, 1) =~= seq!['}']);
            assert(starts_with(after_e, seq!['}']));
            assert(enc_get_resp(r).len() == 8 + n + 1);
        },
    }
}

/// Protocol round trip, `Set` answer.
#[verifier::rlimit(60)]
pub proof fn lemma_p_set_resp_complete(r: SetRespModel, rest: Seq<char>)
    ensures
        p_set_resp(enc_set_resp(r) + rest) == Some((r, enc_set_resp(r).len() as int)),
{
    let s = enc_set_resp(r) + rest;
    match r {
        SetRespModel::Success => {
            assert(s =~= ok_bare() + rest);
            assert(s.subrange(0, 4) =~= ok_bare());
            assert(starts_with(s, ok_bare()));
        },
        SetRespModel::Failure(e) => {
            let after_e = seq!['}'] + rest;
            assert(s =~= err_open() + (esc(e) + seq!['"'] + after_e));
            assert(s[0] == '{');
            assert(ok_bare()[0] == '"');
            assert(!starts_with(s, ok_bare())) by {
                if starts_with(s, ok_bare()) {
                    assert(s.subrange(0, 4)[0] == s[0]);
                }
            }
            assert(s.subrange(0, 8) =~= err_open());
            assert(starts_with(s, err_open()));
            assert(s.skip(8) =~= esc(e) + seq!['"'] + after_e);
            crate::codec::lemma_p_str_complete(e, after_e);
            let n = esc(e).len() as int + 1;
            assert(s.skip(8 + n) =~= after_e);
            assert(after_e.subrange(0, 1) =~= seq!['}']);
            assert(starts_with(after_e, seq!['}']));
            assert(enc_set_resp(r).len() == 8 + n + 1);
        },
    }
}

/// Protocol round trip, `Remove` answer.
#[verifier::rlimit(60)]
pub proof fn lemma_p_rm_resp_complete(r: RemoveRespModel, rest: Seq<char>)
    ensures
        p_rm_resp(enc_rm_resp(r) + rest) == Some((r, enc_rm_resp(r).len() as int)),
{
    let s = enc_rm_resp(r) + rest;
    match r {
        RemoveRespModel::Success => {
            assert(s =~= ok_bare() + rest);
            assert(s.subrange(0, 4) =~= ok_bare());
            assert(starts_with(s, ok_bare()));
        },
        RemoveRespModel::Failure(e) => {
            let after_e = seq!['}'] + rest;
            assert(s =~= err_open() + (esc(e) + seq!['"'] + after_e));
            assert(s[0] == '{');
            assert(ok_bare()[0] == '"');
            assert(!starts_with(s, ok_bare())) by {
                if starts_with(s, ok_bare()) {
                    assert(s.subrange(0, 4)[0] == s[0]);
                }
            }
            assert(s.subrange(0, 8) =~= err_open());
            assert(starts_with(s, err_open()));
            assert(s.skip(8) =~= esc(e) + seq!['"'] + after_e);
            crate::codec::lemma_p_str_complete(e, after_e);
            let n = esc(e).len() as int + 1;
            assert(s.skip(8 + n) =~= after_e);
            assert(after_e.subrange(0, 1) =~= seq!['}']);
            assert(starts_with(after_e, seq!['}']));
            assert(enc_rm_resp(r).len() == 8 + n + 1);
        },
    }
}

} // verus!
