//! The server's request handling: one framed request in, one framed
//! response out.  The transport that carries the frames lives in the host
//! program; the decisions live here.

use vstd::prelude::*;

use crate::engine::KvsEngine;

verus! {

/// One request frame.  On the wire the write variant is spelled `Set`.
#[derive(Debug, Clone)]
pub enum Request {
    Get { key: String },
    Put { key: String, value: String },
    Remove { key: String },
}

/// One response frame: success with an optional value (`{"Ok":...}` on the
/// wire), or a failure message (`{"Err":...}`).
#[derive(Debug, Clone)]
pub enum Response {
    Success(Option<String>),
    Failure(String),
}

/// The server of the key-value store: an engine plus the request logic.
pub struct KvsServer<E: KvsEngine> {
    /// The storage engine that serves the requests.
    pub engine: E,
}

impl<E: KvsEngine> KvsServer<E> {
    /// A server over the given engine.
    pub fn new(engine: E) -> (r: KvsServer<E>)
        ensures
            r.engine == engine,
    {
        KvsServer { engine }
    }

    /// Serve one request.  A success response reports exactly what the
    /// engine did: a found or absent value for `Get`, an applied write for
    /// `Put`, an applied delete for `Remove`.  A failure frame arises only
    /// where the engine may fail (or, for `Remove`, where the key is
    /// absent) and leaves the contents unchanged; the connection goes on.
    pub fn serve_request(&mut self, req: Request) -> (resp: Response)
        requires
            old(self).engine.inv(),
        ensures
            final(self).engine.inv(),
            match req {
                Request::Get { key } => match resp {
                    Response::Success(v) => final(self).engine.model() == old(
                        self,
                    ).engine.model() && (match v {
                        Some(val) => old(self).engine.model().contains_key(key@) && val@ == old(
                            self,
                        ).engine.model()[key@],
                        None => !old(self).engine.model().contains_key(key@),
                    }),
                    Response::Failure(_) => old(self).engine.get_may_fail(key@) && final(self).engine.model() == old(self).engine.model(),
                },
                Request::Put { key, value } => match resp {
                    Response::Success(v) => v is None && final(self).engine.model() == old(
                        self,
                    ).engine.model().insert(key@, value@),
                    Response::Failure(_) => old(self).engine.set_may_fail(key@, value@) && final(self).engine.model() == old(self).engine.model(),
                },
                Request::Remove { key } => match resp {
                    Response::Success(v) => v is None && old(self).engine.model().contains_key(
                        key@,
                    ) && final(self).engine.model() == old(self).engine.model().remove(key@),
                    Response::Failure(_) => (old(self).engine.remove_may_fail(key@) || !old(
                        self,
                    ).engine.model().contains_key(key@)) && final(self).engine.model() == old(
                        self,
                    ).engine.model(),
                },
            },
    {
        match req {
            Request::Get { key } => match self.engine.get(key) {
                Ok(v) => Response::Success(v),
                Err(e) => Response::Failure(e.message()),
            },
            Request::Put { key, value } => match self.engine.set(key, value) {
                Ok(()) => Response::Success(None),
                Err(e) => Response::Failure(e.message()),
            },
            Request::Remove { key } => match self.engine.remove(key) {
                Ok(()) => Response::Success(None),
                Err(e) => Response::Failure(e.message()),
            },
        }
    }
}

} // verus!
