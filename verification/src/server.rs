use vstd::prelude::*;

use crate::engines::KvsEngine;
use crate::kv::KvStore;
use crate::protocol::{
    GetRespModel, GetResponse, RemoveRespModel, RemoveResponse, Request, ReqModel, SetRespModel,
    SetResponse, enc_get_resp, enc_rm_resp, enc_set_resp, encode_get_response, encode_rm_response,
    encode_set_response,
};
use crate::thread_pool::ThreadPool;

verus! {

/// The connection server: an engine handle and the worker pool that runs
/// the per-connection jobs. The owner's accept loop takes the parts and,
/// per connection, decodes requests and answers each with `serve_request`
/// (or the engine's own operations), writing each response before reading
/// the next request.
pub struct KvsServer<E: KvsEngine, T: ThreadPool> {
    engine: E,
    thread_pool: T,
}

impl<E: KvsEngine, T: ThreadPool> KvsServer<E, T> {
    /// The engine handle and pool this server was built with.
    pub closed spec fn parts(&self) -> (E, T) {
        (self.engine, self.thread_pool)
    }

    /// Build a server from an engine handle and a worker pool.
    pub fn new(engine: E, thread_pool: T) -> (r: KvsServer<E, T>)
        ensures
            r.parts() == (engine, thread_pool),
    {
        KvsServer { engine, thread_pool }
    }

    /// Hand the engine handle and pool back to the accept loop.
    pub fn into_parts(self) -> (r: (E, T))
        ensures
            r == self.parts(),
    {
        (self.engine, self.thread_pool)
    }
}

/// Package an engine's lookup outcome as the wire answer: the value on
/// success, the rendered error text on failure.
pub fn assemble_get_response(r: Result<Option<String>, crate::error::KvsError>) -> (resp:
    GetResponse)
    ensures
        match r {
            Ok(ov) => resp@ == GetRespModel::Success(
                match ov {
                    Some(v) => Some(v@),
                    None => None,
                },
            ),
            Err(e) => resp@ == GetRespModel::Failure(e.spec_message()),
        },
{
    match r {
        Ok(ov) => GetResponse::Success(ov),
        Err(e) => GetResponse::Failure(e.message()),
    }
}

/// Package an engine's write outcome as the wire answer.
pub fn assemble_set_response(r: Result<(), crate::error::KvsError>) -> (resp: SetResponse)
    ensures
        match r {
            Ok(()) => resp@ == SetRespModel::Success,
            Err(e) => resp@ == SetRespModel::Failure(e.spec_message()),
        },
{
    match r {
        Ok(()) => SetResponse::Success,
        Err(e) => SetResponse::Failure(e.message()),
    }
}

/// Package an engine's removal outcome as the wire answer.
pub fn assemble_rm_response(r: Result<(), crate::error::KvsError>) -> (resp: RemoveResponse)
    ensures
        match r {
            Ok(()) => resp@ == RemoveRespModel::Success,
            Err(e) => resp@ == RemoveRespModel::Failure(e.spec_message()),
        },
{
    match r {
        Ok(()) => RemoveResponse::Success,
        Err(e) => RemoveResponse::Failure(e.message()),
    }
}

/// Serve one decoded request against the store and encode the one response
/// that answers it: always exactly one response, of the variant matching
/// the request's variant, carrying the result the engine contract gives —
/// or, where the engine failed, its rendered error text.
pub fn serve_request(store: &mut KvStore, req: Request) -> (out: Vec<char>)
    requires
        old(store).wf(),
    ensures
        final(store).wf(),
        match req@ {
            ReqModel::Get(k) => *final(store) == *old(store) && out@ == enc_get_resp(
                GetRespModel::Success(
                    if old(store)@.contains_key(k) {
                        Some(old(store)@[k])
                    } else {
                        None
                    },
                ),
            ),
            ReqModel::Put(k, v) => final(store)@ == old(store)@.insert(k, v) && (old(store).gen()
                <= u64::MAX - 2 ==> out@ == enc_set_resp(SetRespModel::Success)) && (out@
                == enc_set_resp(SetRespModel::Success) || (exists|e: Seq<char>|
                out@ == enc_set_resp(SetRespModel::Failure(e)))),
            ReqModel::Remove(k) => {
                &&& old(store)@.contains_key(k) ==> final(store)@ == old(store)@.remove(k) && out@
                    == enc_rm_resp(RemoveRespModel::Success)
                &&& !old(store)@.contains_key(k) ==> *final(store) == *old(store) && out@
                    == enc_rm_resp(RemoveRespModel::Failure("Key not found"@))
            },
        },
{
    match req {
        Request::Get { key } => {
            match store.get(key) {
                Ok(ov) => encode_get_response(&GetResponse::Success(ov)),
                Err(e) => {
                    // `get` on a coherent store never fails
                    assert(false);
                    encode_get_response(&GetResponse::Failure(e.message()))
                },
            }
        },
        Request::Put { key, value } => {
            match store.set(key, value) {
                Ok(()) => encode_set_response(&SetResponse::Success),
                Err(e) => encode_set_response(&SetResponse::Failure(e.message())),
            }
        },
        Request::Remove { key } => {
            match store.remove(key) {
                Ok(()) => encode_rm_response(&RemoveResponse::Success),
                Err(e) => encode_rm_response(&RemoveResponse::Failure(e.message())),
            }
        },
    }
}

} // verus!
