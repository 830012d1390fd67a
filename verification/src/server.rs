//! The per-connection server logic.
//!
//! A worker decodes requests from its connection's input, runs each one
//! against the engine, and appends one encoded response per request, in
//! request order.  The sockets, the threads and the lock that shares one
//! engine among workers stay with the caller; this module owns everything
//! between decoded input and encoded output.

use crate::kv::KvStore;
use crate::kv::apply_effects;
use crate::kv::FsEffect;
use crate::kv::lemma_apply_effects_concat;
use crate::codec::Parse;
use crate::codec::Scan;
use crate::codec::chars_to_string;
use crate::wire::Request;
use crate::wire::RequestView;
use crate::wire::Response;
use crate::wire::ResponseView;
use crate::wire::decode_request;
use crate::wire::parse_request;
use crate::wire::enc_response;
use crate::wire::encode_response;
use crate::wire::lemma_parse_request_bounds;
use vstd::prelude::*;

verus! {

broadcast use vstd::std_specs::vec::group_vec_axioms;

/// How one request moves the engine and what it answers: a `Put` that the
/// counters admit stores the pair; a `Get` reads without changing
/// anything; a `Remove` of a live key withdraws it and of an absent key
/// fails with the key-not-found message.  Counter exhaustion answers with
/// a failure message and leaves the contents alone.
pub open spec fn request_step(
    pre: KvStore,
    post: KvStore,
    req: RequestView,
    resp: ResponseView,
) -> bool {
    match req {
        RequestView::Put { key, value } => {
            if pre.set_ok(key) {
                post.live() == pre.live().insert(key, value) && resp == ResponseView::Okay(
                    None,
                )
            } else {
                post.live() == pre.live() && resp matches ResponseView::Fail(_)
            }
        },
        RequestView::Get { key } => {
            &&& post.live() == pre.live()
            &&& resp == if pre.live().contains_key(key) {
                ResponseView::Okay(Some(pre.live()[key]))
            } else {
                ResponseView::Okay(None)
            }
        },
        RequestView::Remove { key } => {
            if !pre.live().contains_key(key) {
                post.live() == pre.live() && resp == ResponseView::Fail("Key not found"@)
            } else if pre.remove_ok(key) {
                post.live() == pre.live().remove(key) && resp == ResponseView::Okay(None)
            } else {
                post.live() == pre.live() && resp matches ResponseView::Fail(_)
            }
        },
    }
}

/// Run one request against the engine and build its response.
pub fn handle_request(store: &mut KvStore, req: Request) -> (resp: Response)
    requires
        old(store).wf(),
    ensures
        final(store).wf(),
        request_step(*old(store), *final(store), req@, resp@),
        old(store).pending@.is_prefix_of(final(store).pending@),
        apply_effects(
            old(store).disk(),
            final(store).pending@.skip(old(store).pending@.len() as int),
        ) == final(store).disk(),
{
    match req {
        Request::Put { key, value } => match store.set(key, value) {
            Ok(()) => Response::Okay(None),
            Err(e) => Response::Fail(e.message()),
        },
        Request::Get { key } => {
            let r = store.get(key);
            proof {
                assert(store.pending@.skip(store.pending@.len() as int) =~= Seq::<
                    FsEffect,
                >::empty());
                assert(store.pending@.take(store.pending@.len() as int) =~= store.pending@);
            }
            match r {
                Ok(v) => Response::Okay(v),
                Err(e) => {
                    proof {
                        assert(false);
                    }
                    Response::Fail(e.message())
                }
            }
        },
        Request::Remove { key } => match store.remove(key) {
            Ok(()) => Response::Okay(None),
            Err(e) => Response::Fail(e.message()),
        },
    }
}

/// A chain of request steps from `pre` to `post`, answering `reqs` with
/// `resps` one by one, in order.
pub open spec fn steps_ok(
    pre: KvStore,
    post: KvStore,
    reqs: Seq<RequestView>,
    resps: Seq<ResponseView>,
) -> bool
    decreases reqs.len(),
{
    if reqs.len() == 0 {
        post == pre && resps.len() == 0
    } else if resps.len() != reqs.len() {
        false
    } else {
        exists|mid: KvStore|
            {
                &&& #[trigger] request_step(pre, mid, reqs[0], resps[0])
                &&& steps_ok(mid, post, reqs.drop_first(), resps.drop_first())
            }
    }
}

/// One more answered request extends a chain.
pub proof fn lemma_steps_ok_snoc(
    a: KvStore,
    b: KvStore,
    c: KvStore,
    reqs: Seq<RequestView>,
    resps: Seq<ResponseView>,
    rq: RequestView,
    rs: ResponseView,
)
    requires
        steps_ok(a, b, reqs, resps),
        request_step(b, c, rq, rs),
    ensures
        steps_ok(a, c, reqs.push(rq), resps.push(rs)),
    decreases reqs.len(),
{
    if reqs.len() == 0 {
        assert(reqs.push(rq)[0] == rq);
        assert(resps.push(rs)[0] == rs);
        assert(reqs.push(rq).drop_first() =~= Seq::<RequestView>::empty());
        assert(resps.push(rs).drop_first() =~= Seq::<ResponseView>::empty());
        assert(request_step(a, c, rq, rs));
        assert(steps_ok(c, c, Seq::<RequestView>::empty(), Seq::<ResponseView>::empty()));
    } else {
        let mid = choose|mid: KvStore|
            {
                &&& #[trigger] request_step(a, mid, reqs[0], resps[0])
                &&& steps_ok(mid, b, reqs.drop_first(), resps.drop_first())
            };
        lemma_steps_ok_snoc(mid, b, c, reqs.drop_first(), resps.drop_first(), rq, rs);
        assert(reqs.push(rq)[0] == reqs[0]);
        assert(resps.push(rs)[0] == resps[0]);
        assert(reqs.push(rq).drop_first() =~= reqs.drop_first().push(rq));
        assert(resps.push(rs).drop_first() =~= resps.drop_first().push(rs));
        assert(request_step(a, mid, reqs.push(rq)[0], resps.push(rs)[0]));
    }
}

/// Some run of the engine answers `req` with `resp`.
pub open spec fn answered(req: RequestView, resp: ResponseView) -> bool {
    exists|b: KvStore, c: KvStore| request_step(b, c, req, resp)
}

/// Within one connection the i-th response answers the i-th request: the
/// chain pairs them index by index, each pair a request step of its own.
pub proof fn lemma_responses_in_order(
    pre: KvStore,
    post: KvStore,
    reqs: Seq<RequestView>,
    resps: Seq<ResponseView>,
)
    requires
        steps_ok(pre, post, reqs, resps),
    ensures
        resps.len() == reqs.len(),
        forall|i: int| 0 <= i < reqs.len() ==> #[trigger] answered(reqs[i], resps[i]),
    decreases reqs.len(),
{
    if reqs.len() > 0 {
        let mid = choose|mid: KvStore|
            {
                &&& #[trigger] request_step(pre, mid, reqs[0], resps[0])
                &&& steps_ok(mid, post, reqs.drop_first(), resps.drop_first())
            };
        lemma_responses_in_order(mid, post, reqs.drop_first(), resps.drop_first());
        assert forall|i: int| 0 <= i < reqs.len() implies #[trigger] answered(
            reqs[i],
            resps[i],
        ) by {
            if i == 0 {
                assert(request_step(pre, mid, reqs[0], resps[0]));
            } else {
                assert(reqs.drop_first()[i - 1] == reqs[i]);
                assert(resps.drop_first()[i - 1] == resps[i]);
                assert(answered(reqs.drop_first()[i - 1], resps.drop_first()[i - 1]));
            }
        }
    }
}

/// The concatenated encodings of a sequence of responses.
pub open spec fn enc_responses(rs: Seq<ResponseView>) -> Seq<char>
    decreases rs.len(),
{
    if rs.len() == 0 {
        Seq::<char>::empty()
    } else {
        enc_response(rs[0]) + enc_responses(rs.drop_first())
    }
}

/// One more response encodes at the end.
pub proof fn lemma_enc_responses_snoc(rs: Seq<ResponseView>, r: ResponseView)
    ensures
        enc_responses(rs.push(r)) == enc_responses(rs) + enc_response(r),
    decreases rs.len(),
{
    if rs.len() == 0 {
        assert(rs.push(r)[0] == r);
        assert(rs.push(r).drop_first() =~= Seq::<ResponseView>::empty());
        assert(enc_responses(Seq::<ResponseView>::empty()) == Seq::<char>::empty());
        assert(enc_responses(rs.push(r)) =~= enc_response(r));
        assert(enc_responses(rs) + enc_response(r) =~= enc_response(r));
    } else {
        assert(rs.push(r)[0] == rs[0]);
        assert(rs.push(r).drop_first() =~= rs.drop_first().push(r));
        lemma_enc_responses_snoc(rs.drop_first(), r);
        assert(enc_response(rs[0]) + (enc_responses(rs.drop_first()) + enc_response(r))
            =~= (enc_response(rs[0]) + enc_responses(rs.drop_first())) + enc_response(r));
    }
}

/// Every complete request at the front of `s`, with how many characters
/// they cover and whether what follows could still grow into a request
/// (`true`) or can never start one (`false`).
pub open spec fn parse_requests(s: Seq<char>) -> (Seq<RequestView>, int, bool)
    decreases s.len(),
{
    match parse_request(s) {
        Parse::Done(r, n) => if 1 <= n <= s.len() {
            let (rest, used, clean) = parse_requests(s.skip(n));
            (seq![r] + rest, n + used, clean)
        } else {
            (Seq::<RequestView>::empty(), 0, false)
        },
        Parse::More => (Seq::<RequestView>::empty(), 0, true),
        Parse::Bad => (Seq::<RequestView>::empty(), 0, false),
    }
}

/// Chaining the directory effects of two stretches of work.
pub proof fn lemma_effects_chain(a: KvStore, b: KvStore, c: KvStore)
    requires
        a.pending@.is_prefix_of(b.pending@),
        apply_effects(a.disk(), b.pending@.skip(a.pending@.len() as int)) == b.disk(),
        b.pending@.is_prefix_of(c.pending@),
        apply_effects(b.disk(), c.pending@.skip(b.pending@.len() as int)) == c.disk(),
    ensures
        a.pending@.is_prefix_of(c.pending@),
        apply_effects(a.disk(), c.pending@.skip(a.pending@.len() as int)) == c.disk(),
{
    assert(c.pending@.skip(a.pending@.len() as int) =~= b.pending@.skip(
        a.pending@.len() as int,
    ) + c.pending@.skip(b.pending@.len() as int));
    lemma_apply_effects_concat(
        a.disk(),
        b.pending@.skip(a.pending@.len() as int),
        c.pending@.skip(b.pending@.len() as int),
    );
    assert(c.pending@.take(a.pending@.len() as int) =~= a.pending@);
}

/// Serve every complete request at the front of `input`, in order.  The
/// result is the concatenated encoded responses to exactly those
/// requests, how much input they covered, and whether what stopped the
/// loop was the input merely running dry rather than text no request can
/// start with.
#[verifier::loop_isolation(false)]
pub fn serve(store: &mut KvStore, input: &Vec<char>) -> (r: (String, usize, bool))
    requires
        old(store).wf(),
    ensures
        final(store).wf(),
        r.1 <= input@.len(),
        r.1 == parse_requests(input@).1,
        r.2 == parse_requests(input@).2,
        old(store).pending@.is_prefix_of(final(store).pending@),
        apply_effects(
            old(store).disk(),
            final(store).pending@.skip(old(store).pending@.len() as int),
        ) == final(store).disk(),
        exists|resps: Seq<ResponseView>|
            {
                &&& #[trigger] steps_ok(*old(store), *final(store), parse_requests(input@).0, resps)
                &&& resps.len() == parse_requests(input@).0.len()
                &&& r.0@ == enc_responses(resps)
            },
{
    let mut out: Vec<char> = Vec::new();
    let mut pos: usize = 0;
    let ghost mut reqs: Seq<RequestView> = Seq::empty();
    let ghost mut resps: Seq<ResponseView> = Seq::empty();
    proof {
        assert(input@.skip(0) =~= input@);
        assert(Seq::<RequestView>::empty() + parse_requests(input@).0 =~= parse_requests(
            input@,
        ).0);
    }
    loop
        invariant
            store.wf(),
            pos <= input@.len(),
            steps_ok(*old(store), *store, reqs, resps),
            resps.len() == reqs.len(),
            out@ == enc_responses(resps),
            parse_requests(input@).0 == reqs + parse_requests(input@.skip(pos as int)).0,
            parse_requests(input@).1 == pos + parse_requests(input@.skip(pos as int)).1,
            parse_requests(input@).2 == parse_requests(input@.skip(pos as int)).2,
            old(store).pending@.is_prefix_of(store.pending@),
            apply_effects(
                old(store).disk(),
                store.pending@.skip(old(store).pending@.len() as int),
            ) == store.disk(),
        decreases input@.len() - pos,
    {
        match decode_request(input, pos) {
            Scan::Hit(req, next) => {
                proof {
                    lemma_parse_request_bounds(input@.skip(pos as int));
                }
                let ghost pre_step = *store;
                let ghost reqv = req@;
                let resp = handle_request(store, req);
                let mut enc = encode_response(&resp);
                out.append(&mut enc);
                proof {
                    lemma_steps_ok_snoc(*old(store), pre_step, *store, reqs, resps, reqv, resp@);
                    lemma_enc_responses_snoc(resps, resp@);
                    assert(input@.skip(pos as int).skip(next - pos) =~= input@.skip(next as int));
                    assert(reqs + (seq![reqv] + parse_requests(input@.skip(next as int)).0)
                        =~= reqs.push(reqv) + parse_requests(input@.skip(next as int)).0);
                    reqs = reqs.push(reqv);
                    resps = resps.push(resp@);
                    lemma_effects_chain(*old(store), pre_step, *store);
                }
                pos = next;
            }
            Scan::More => {
                proof {
                    assert(reqs + parse_requests(input@.skip(pos as int)).0 =~= reqs);
                }
                return (chars_to_string(&out), pos, true);
            }
            Scan::Bad => {
                proof {
                    assert(reqs + parse_requests(input@.skip(pos as int)).0 =~= reqs);
                }
                return (chars_to_string(&out), pos, false);
            }
        }
    }
}

} // verus!
