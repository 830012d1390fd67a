//! The client-side half of the protocol.
//!
//! A client sends one encoded request and reads back one response per
//! request, in order.  The socket stays outside; this module builds the
//! requests and interprets the responses: success with an optional value
//! passes through, and a failure message surfaces as an error.

use crate::kv::KvsError;
use crate::wire::Response;
use crate::wire::ResponseView;
use vstd::prelude::*;

verus! {

/// The view of an optional value.
pub open spec fn opt_view(o: Option<String>) -> Option<Seq<char>> {
    match o {
        Some(s) => Some(s@),
        None => None,
    }
}

/// What a store reply means: any success answers the store request; a
/// failure message becomes an error carrying that message.
pub fn interpret_set_response(resp: Response) -> (r: Result<(), KvsError>)
    ensures
        match resp@ {
            ResponseView::Okay(_) => r is Ok,
            ResponseView::Fail(m) => r matches Err(e) && (e matches KvsError::StringErr(s)
                && s@ == m),
        },
{
    match resp {
        Response::Okay(_) => Ok(()),
        Response::Fail(m) => Err(KvsError::StringErr(m)),
    }
}

/// What a lookup reply means: the optional value passes through; absence
/// is not an error.  A failure message becomes an error carrying it.
pub fn interpret_get_response(resp: Response) -> (r: Result<Option<String>, KvsError>)
    ensures
        match resp@ {
            ResponseView::Okay(ov) => r matches Ok(o) && opt_view(o) == ov,
            ResponseView::Fail(m) => r matches Err(e) && (e matches KvsError::StringErr(s)
                && s@ == m),
        },
{
    match resp {
        Response::Okay(v) => Ok(v),
        Response::Fail(m) => Err(KvsError::StringErr(m)),
    }
}

/// What a removal reply means, like a store reply.
pub fn interpret_remove_response(resp: Response) -> (r: Result<(), KvsError>)
    ensures
        match resp@ {
            ResponseView::Okay(_) => r is Ok,
            ResponseView::Fail(m) => r matches Err(e) && (e matches KvsError::StringErr(s)
                && s@ == m),
        },
{
    match resp {
        Response::Okay(_) => Ok(()),
        Response::Fail(m) => Err(KvsError::StringErr(m)),
    }
}

} // verus!
