//! Engine module: the decisions of the engine.
//!
//! Threads, channels and the network stay outside the library. What the
//! engine decides lives here: how an answer of a middleware or a pipeline
//! routes a request, a response or an item, how the middleware chains are
//! walked, and which task goes to which worker and when the engine stops.
use vstd::prelude::*;
use crate::downloader::{Request, RequestContent, Response};
use crate::downloader_middleware::{MiddleWareExceptionResult, MiddleWareResult};
use crate::item_pipeline::ItemProduct;
use crate::scheduler::{dequeued, Scheduler};

verus! {

/// Result for processing an request after it's sent to downloader and
/// before it goes to item pipeline.
pub enum IntermediateProcessResult {
    Request(Request),
    Response(Response),
    Ignore,
}

/// Where a request goes after one middleware's `process_request`.
pub enum RequestRoute {
    /// On to the next middleware (and at the end, to the downloader).
    Continue(Request),
    /// No download: this response goes through the `process_response` chain.
    Respond(Response),
    /// Processing ends with this result.
    Stop(IntermediateProcessResult),
}

/// Where a response goes after one middleware's `process_response`.
pub enum ResponseRoute {
    /// On to the next middleware (and at the end, to the spider).
    Continue(Response),
    /// Processing ends with this result.
    Stop(IntermediateProcessResult),
}

/// Where a download error goes after one middleware's `process_exception`.
pub enum ExceptionRoute {
    /// On to the next middleware's `process_exception`.
    Continue,
    /// This response goes through the `process_response` chain.
    Respond(Response),
    /// Processing ends with this result.
    Stop(IntermediateProcessResult),
}

/// What the `process_request` chain leaves to do.
pub enum DownloadDecision {
    /// Download this request.
    Download(Request),
    /// No download: processing ended with this result.
    Done(IntermediateProcessResult),
}

/// `FinalRequest` reschedules its request, `IntermediateRequest` hands its
/// request on, `Response` skips the download and starts the response chain,
/// `Ignore` drops the request.
pub open spec fn request_route(answer: MiddleWareResult) -> RequestRoute {
    match answer {
        MiddleWareResult::FinalRequest(r) => RequestRoute::Stop(IntermediateProcessResult::Request(r)),
        MiddleWareResult::IntermediateRequest(r) => RequestRoute::Continue(r),
        MiddleWareResult::Response(r) => RequestRoute::Respond(r),
        MiddleWareResult::Ignore => RequestRoute::Stop(IntermediateProcessResult::Ignore),
    }
}

/// On a response, either kind of request reschedules that request,
/// `Response` hands its response on, `Ignore` drops it.
pub open spec fn response_route(answer: MiddleWareResult) -> ResponseRoute {
    match answer {
        MiddleWareResult::FinalRequest(r) => ResponseRoute::Stop(IntermediateProcessResult::Request(r)),
        MiddleWareResult::IntermediateRequest(r) => ResponseRoute::Stop(
            IntermediateProcessResult::Request(r),
        ),
        MiddleWareResult::Response(r) => ResponseRoute::Continue(r),
        MiddleWareResult::Ignore => ResponseRoute::Stop(IntermediateProcessResult::Ignore),
    }
}

/// On a download error, `Continue` asks the next middleware, `Request`
/// reschedules that request, `Response` starts the response chain.
pub open spec fn exception_route(answer: MiddleWareExceptionResult) -> ExceptionRoute {
    match answer {
        MiddleWareExceptionResult::Continue => ExceptionRoute::Continue,
        MiddleWareExceptionResult::Request(r) => ExceptionRoute::Stop(IntermediateProcessResult::Request(r)),
        MiddleWareExceptionResult::Response(r) => ExceptionRoute::Respond(r),
    }
}

/// On an item, `Item` hands the item to the next pipeline, `Ignore` drops it.
pub open spec fn item_route<T>(answer: ItemProduct<T>) -> Option<T> {
    match answer {
        ItemProduct::Item(i) => Some(i),
        ItemProduct::Ignore => None,
    }
}

/// Routes one answer of `process_request`.
pub fn route_request(answer: MiddleWareResult) -> (route: RequestRoute)
    ensures
        route == request_route(answer),
{
    match answer {
        MiddleWareResult::FinalRequest(r) => RequestRoute::Stop(IntermediateProcessResult::Request(r)),
        MiddleWareResult::IntermediateRequest(r) => RequestRoute::Continue(r),
        MiddleWareResult::Response(r) => RequestRoute::Respond(r),
        MiddleWareResult::Ignore => RequestRoute::Stop(IntermediateProcessResult::Ignore),
    }
}

/// Routes one answer of `process_response`.
pub fn route_response(answer: MiddleWareResult) -> (route: ResponseRoute)
    ensures
        route == response_route(answer),
{
    match answer {
        MiddleWareResult::FinalRequest(r) | MiddleWareResult::IntermediateRequest(r) => {
            ResponseRoute::Stop(IntermediateProcessResult::Request(r))
        },
        MiddleWareResult::Response(r) => ResponseRoute::Continue(r),
        MiddleWareResult::Ignore => ResponseRoute::Stop(IntermediateProcessResult::Ignore),
    }
}

/// Routes one answer of `process_exception`.
pub fn route_exception(answer: MiddleWareExceptionResult) -> (route: ExceptionRoute)
    ensures
        route == exception_route(answer),
{
    match answer {
        MiddleWareExceptionResult::Continue => ExceptionRoute::Continue,
        MiddleWareExceptionResult::Request(r) => ExceptionRoute::Stop(IntermediateProcessResult::Request(r)),
        MiddleWareExceptionResult::Response(r) => ExceptionRoute::Respond(r),
    }
}

/// Routes one answer of `process_item`.
pub fn route_item<T>(answer: ItemProduct<T>) -> (next: Option<T>)
    ensures
        next == item_route(answer),
{
    match answer {
        ItemProduct::Item(i) => Some(i),
        ItemProduct::Ignore => None,
    }
}

// The request and response chains below reach the middlewares through
// closures: the closure that answers for middleware `k` calls that
// middleware's method (the engine locks it first, as the crawler is shared by
// all workers). What a middleware answers is its implementor's affair, so the
// contracts say what holds whatever the answers: which call gets what, and
// where each answer leads, given the answers that came back. The request or
// response moves into each call, and the contracts follow it from call to
// call.

/// Where a response chain ends up after `answers`: with no answer, the
/// response goes on; else where the last answer routes it.
pub open spec fn last_response_route(response: Response, answers: Seq<MiddleWareResult>) -> ResponseRoute {
    if answers.len() == 0 {
        ResponseRoute::Continue(response)
    } else {
        response_route(answers.last())
    }
}

/// The result of a response chain whose middlewares answered `answers`.
pub open spec fn response_chain_end(response: Response, answers: Seq<MiddleWareResult>) -> IntermediateProcessResult {
    match last_response_route(response, answers) {
        ResponseRoute::Continue(r) => IntermediateProcessResult::Response(r),
        ResponseRoute::Stop(result) => result,
    }
}

/// `answers` are what the `process_response` calls of a chain of the `n`
/// middlewares from middleware `from` on gave, in order: middleware `from + k`
/// was called once, with the request content and `handed[k]`, and answered
/// `answers[k]`; the first is handed the
/// response, each next one what the answer before handed on; every answer but
/// the last handed the response on, and the chain went on to its end unless
/// the last answer stopped it.
pub open spec fn response_chain_trace<G: Fn(usize, &RequestContent, Response) -> MiddleWareResult>(
    respond: G,
    from: nat,
    n: nat,
    request_content: RequestContent,
    response: Response,
    handed: Seq<Response>,
    answers: Seq<MiddleWareResult>,
) -> bool {
    &&& answers.len() <= n
    &&& handed.len() == answers.len()
    &&& answers.len() > 0 ==> handed[0] == response
    &&& forall|k: int|
        0 <= k < answers.len() ==> call_ensures(
            respond,
            ((from + k) as usize, &request_content, handed[k]),
            #[trigger] answers[k],
        )
    &&& forall|k: int|
        0 <= k < answers.len() - 1 ==> response_route(#[trigger] answers[k]) == ResponseRoute::Continue(handed[k + 1])
    &&& answers.len() < n ==> answers.len() > 0 && response_route(answers.last()) is Stop
}

/// A response chain of the `n` middlewares from middleware `from` on ran on
/// `response` and gave `res`.
pub open spec fn response_chain_gives<G: Fn(usize, &RequestContent, Response) -> MiddleWareResult>(
    respond: G,
    from: nat,
    n: nat,
    request_content: RequestContent,
    response: Response,
    res: IntermediateProcessResult,
) -> bool {
    exists|handed: Seq<Response>, answers: Seq<MiddleWareResult>|
        #[trigger] response_chain_trace(respond, from, n, request_content, response, handed, answers)
            && res == response_chain_end(response, answers)
}

/// What a response chain on the first `n1` middlewares, followed (when it
/// hands a response on) by the chain on the next `n2`, gives.
pub open spec fn response_chain_halves_give<G: Fn(usize, &RequestContent, Response) -> MiddleWareResult>(
    respond: G,
    n1: nat,
    n2: nat,
    request_content: RequestContent,
    response: Response,
    res: IntermediateProcessResult,
) -> bool {
    exists|mid: IntermediateProcessResult|
        #[trigger] response_chain_gives(respond, 0, n1, request_content, response, mid) && match mid {
            IntermediateProcessResult::Response(r1) => response_chain_gives(respond, n1, n2, request_content, r1, res),
            _ => res == mid,
        }
}

proof fn lemma_halves_split<G: Fn(usize, &RequestContent, Response) -> MiddleWareResult>(
    respond: G,
    n1: nat,
    n2: nat,
    c: RequestContent,
    r: Response,
    res: IntermediateProcessResult,
    handed: Seq<Response>,
    answers: Seq<MiddleWareResult>,
)
    requires
        response_chain_trace(respond, 0, n1 + n2, c, r, handed, answers),
        res == response_chain_end(r, answers),
    ensures
        response_chain_halves_give(respond, n1, n2, c, r, res),
{
    let m = answers.len();
    if m <= n1 {
        assert(response_chain_trace(respond, 0, n1, c, r, handed, answers));
        let mid = res;
        assert(response_chain_gives(respond, 0, n1, c, r, mid));
        if mid is Response {
            if m > 0 {
                assert(response_route(answers.last()) is Continue);
            }
            assert(n2 == 0);
            let e1 = Seq::<Response>::empty();
            let e2 = Seq::<MiddleWareResult>::empty();
            assert(response_chain_trace(respond, n1, n2, c, mid->Response_0, e1, e2));
            assert(response_chain_gives(respond, n1, n2, c, mid->Response_0, res));
        }
    } else {
        let h1 = handed.take(n1 as int);
        let a1 = answers.take(n1 as int);
        let h2 = handed.skip(n1 as int);
        let a2 = answers.skip(n1 as int);
        let r1 = handed[n1 as int];
        assert(response_chain_trace(respond, 0, n1, c, r, h1, a1));
        if n1 > 0 {
            assert(response_route(answers[n1 - 1]) == ResponseRoute::Continue(handed[n1 as int]));
            assert(a1.last() == answers[n1 - 1]);
        }
        let mid = IntermediateProcessResult::Response(r1);
        assert(mid == response_chain_end(r, a1));
        assert(response_chain_gives(respond, 0, n1, c, r, mid));
        assert forall|k: int| 0 <= k < a2.len() implies call_ensures(
            respond,
            ((n1 + k) as usize, &c, h2[k]),
            #[trigger] a2[k],
        ) by {
            assert(a2[k] == answers[n1 + k]);
            assert(h2[k] == handed[n1 + k]);
        }
        assert forall|k: int| 0 <= k < a2.len() - 1 implies response_route(#[trigger] a2[k]) == ResponseRoute::Continue(
            h2[k + 1],
        ) by {
            assert(a2[k] == answers[n1 + k]);
            assert(h2[k + 1] == handed[n1 + k + 1]);
        }
        assert(a2.last() == answers.last());
        assert(response_chain_trace(respond, n1, n2, c, r1, h2, a2));
        assert(res == response_chain_end(r1, a2));
        assert(response_chain_gives(respond, n1, n2, c, r1, res));
    }
}

proof fn lemma_halves_join<G: Fn(usize, &RequestContent, Response) -> MiddleWareResult>(
    respond: G,
    n1: nat,
    n2: nat,
    c: RequestContent,
    r: Response,
    res: IntermediateProcessResult,
)
    requires
        response_chain_halves_give(respond, n1, n2, c, r, res),
    ensures
        response_chain_gives(respond, 0, n1 + n2, c, r, res),
{
    let mid = choose|mid: IntermediateProcessResult|
        #[trigger] response_chain_gives(respond, 0, n1, c, r, mid) && match mid {
            IntermediateProcessResult::Response(r1) => response_chain_gives(respond, n1, n2, c, r1, res),
            _ => res == mid,
        };
    let (h1, a1) = choose|h1: Seq<Response>, a1: Seq<MiddleWareResult>|
        #[trigger] response_chain_trace(respond, 0, n1, c, r, h1, a1) && mid == response_chain_end(r, a1);
    match mid {
        IntermediateProcessResult::Response(r1) => {
            let (h2, a2) = choose|h2: Seq<Response>, a2: Seq<MiddleWareResult>|
                #[trigger] response_chain_trace(respond, n1, n2, c, r1, h2, a2) && res == response_chain_end(r1, a2);
            assert(last_response_route(r, a1) == ResponseRoute::Continue(r1));
            assert(a1.len() == n1);
            let h = h1 + h2;
            let a = a1 + a2;
            assert forall|k: int| 0 <= k < a.len() implies call_ensures(
                respond,
                ((0 + k) as usize, &c, h[k]),
                #[trigger] a[k],
            ) by {
                if k < n1 {
                    assert(a[k] == a1[k] && h[k] == h1[k]);
                } else {
                    assert(a[k] == a2[k - n1] && h[k] == h2[k - n1]);
                    assert((n1 + (k - n1)) == k);
                }
            }
            assert forall|k: int| 0 <= k < a.len() - 1 implies response_route(#[trigger] a[k]) == ResponseRoute::Continue(
                h[k + 1],
            ) by {
                if k < n1 - 1 {
                    assert(a[k] == a1[k] && h[k + 1] == h1[k + 1]);
                } else if k == n1 - 1 {
                    assert(a[k] == a1.last());
                    assert(h[k + 1] == h2[0]);
                } else {
                    assert(a[k] == a2[k - n1] && h[k + 1] == h2[k - n1 + 1]);
                }
            }
            if a.len() > 0 {
                if n1 == 0 {
                    assert(r1 == r);
                    assert(h[0] == h2[0]);
                } else {
                    assert(h[0] == h1[0]);
                }
            }
            if a2.len() > 0 {
                assert(a.last() == a2.last());
            } else {
                assert(a == a1);
            }
            assert(response_chain_trace(respond, 0, n1 + n2, c, r, h, a));
            assert(res == response_chain_end(r, a));
        },
        _ => {
            if a1.len() == 0 {
                assert(false);
            } else if response_route(a1.last()) is Continue {
                assert(false);
            }
            assert(response_chain_trace(respond, 0, n1 + n2, c, r, h1, a1));
        },
    }
}

/// Splitting the response chain: on the first `n1 + n2` middlewares it gives
/// what the chain on the first `n1` gives, followed, when that hands a
/// response on, by the chain on the next `n2` on that response.
pub proof fn lemma_response_chain_halves<G: Fn(usize, &RequestContent, Response) -> MiddleWareResult>(
    respond: G,
    n1: nat,
    n2: nat,
    request_content: RequestContent,
    response: Response,
    res: IntermediateProcessResult,
)
    ensures
        response_chain_gives(respond, 0, n1 + n2, request_content, response, res) <==> response_chain_halves_give(
            respond,
            n1,
            n2,
            request_content,
            response,
            res,
        ),
{
    if response_chain_gives(respond, 0, n1 + n2, request_content, response, res) {
        let (h, a) = choose|h: Seq<Response>, a: Seq<MiddleWareResult>|
            #[trigger] response_chain_trace(respond, 0, n1 + n2, request_content, response, h, a) && res
                == response_chain_end(response, a);
        lemma_halves_split(respond, n1, n2, request_content, response, res, h, a);
    }
    if response_chain_halves_give(respond, n1, n2, request_content, response, res) {
        lemma_halves_join(respond, n1, n2, request_content, response, res);
    }
}

/// Passes a response through the `process_response` methods of `n`
/// middlewares (`respond(k, ..)` asks middleware `k`), in order: each gets the
/// request content and the response that the one before handed on, and the
/// first answer that does not hand a response on ends the chain and gives the
/// result; when all hand it on, the last response is the result.
pub fn download_response_chain<G: Fn(usize, &RequestContent, Response) -> MiddleWareResult>(
    n: usize,
    respond: &G,
    request_content: &RequestContent,
    response: Response,
) -> (res: IntermediateProcessResult)
    requires
        forall|k: usize, c: &RequestContent, r: Response| k < n ==> call_requires(*respond, (k, c, r)),
    ensures
        response_chain_gives(*respond, 0, n as nat, *request_content, response, res),
{
    let ghost mut handed: Seq<Response> = Seq::empty();
    let ghost mut answers: Seq<MiddleWareResult> = Seq::empty();
    let mut current = response;
    for i in 0..n
        invariant
            forall|k: usize, c: &RequestContent, r: Response| k < n ==> call_requires(*respond, (k, c, r)),
            answers.len() == i,
            handed.len() == i,
            i > 0 ==> handed[0] == response,
            last_response_route(response, answers) == ResponseRoute::Continue(current),
            forall|k: int|
                0 <= k < answers.len() ==> call_ensures(*respond, (k as usize, request_content, handed[k]), #[trigger] answers[k]),
            forall|k: int|
                0 <= k < answers.len() - 1 ==> response_route(#[trigger] answers[k]) == ResponseRoute::Continue(handed[k + 1]),
    {
        let ghost given = current;
        let answer = respond(i, request_content, current);
        proof {
            handed = handed.push(given);
            answers = answers.push(answer);
        }
        match route_response(answer) {
            ResponseRoute::Continue(r) => {
                current = r;
            },
            ResponseRoute::Stop(result) => {
                proof {
                    assert(response_chain_trace(*respond, 0, n as nat, *request_content, response, handed, answers));
                    assert(answers.last() == answer);
                    assert(result == response_chain_end(response, answers));
                }
                return result;
            },
        }
    }
    proof {
        assert(response_chain_trace(*respond, 0, n as nat, *request_content, response, handed, answers));
        assert(IntermediateProcessResult::Response(current) == response_chain_end(response, answers));
    }
    IntermediateProcessResult::Response(current)
}

/// Where a request chain ends up after `answers`: with no answer, the request
/// goes on; else where the last answer routes it.
pub open spec fn last_request_route(request: Request, answers: Seq<MiddleWareResult>) -> RequestRoute {
    if answers.len() == 0 {
        RequestRoute::Continue(request)
    } else {
        request_route(answers.last())
    }
}

/// `answers` are what the `process_request` calls of a chain of `n`
/// middlewares gave, in order: middleware `k` was called once, with
/// `handed[k]`, and answered `answers[k]`; the first is handed the request,
/// each next one the request that the answer before handed on; every answer
/// but the last handed a request on, and the chain went on to its end unless
/// the last answer left it.
pub open spec fn request_chain_trace<F: Fn(usize, Request) -> MiddleWareResult>(
    ask: F,
    n: nat,
    request: Request,
    handed: Seq<Request>,
    answers: Seq<MiddleWareResult>,
) -> bool {
    &&& answers.len() <= n
    &&& handed.len() == answers.len()
    &&& answers.len() > 0 ==> handed[0] == request
    &&& forall|k: int| 0 <= k < answers.len() ==> call_ensures(ask, (k as usize, handed[k]), #[trigger] answers[k])
    &&& forall|k: int|
        0 <= k < answers.len() - 1 ==> request_route(#[trigger] answers[k]) == RequestRoute::Continue(handed[k + 1])
    &&& answers.len() < n ==> answers.len() > 0 && !(request_route(answers.last()) is Continue)
}

/// A request chain of `n` middlewares ran on `request` and left `res`: the
/// last request handed on is to be downloaded; a request to reschedule or a
/// dropped request ends the processing; a response given instead of a
/// download goes through the response chain, with the content of the request
/// that the middleware which gave it was handed.
pub open spec fn request_chain_gives<
    F: Fn(usize, Request) -> MiddleWareResult,
    G: Fn(usize, &RequestContent, Response) -> MiddleWareResult,
>(ask: F, respond: G, n: nat, request: Request, res: DownloadDecision) -> bool {
    exists|handed: Seq<Request>, answers: Seq<MiddleWareResult>|
        #[trigger] request_chain_trace(ask, n, request, handed, answers) && match last_request_route(
            request,
            answers,
        ) {
            RequestRoute::Continue(r) => res == DownloadDecision::Download(r),
            RequestRoute::Stop(result) => res == DownloadDecision::Done(result),
            RequestRoute::Respond(r) => res is Done && response_chain_gives(
                respond,
                0,
                n,
                handed.last().content,
                r,
                res->Done_0,
            ),
        }
}

/// Passes a request through the `process_request` methods of `n`
/// middlewares (`ask(k, ..)` asks middleware `k`), in order, each getting the
/// request that the one before handed on. A middleware that answers with a
/// response skips the download: that response goes through the
/// `process_response` chain (`respond`) with the content of the request that
/// the middleware was given.
pub fn process_request_chain<
    F: Fn(usize, Request) -> MiddleWareResult,
    G: Fn(usize, &RequestContent, Response) -> MiddleWareResult,
>(n: usize, ask: &F, respond: &G, request: Request) -> (res: DownloadDecision)
    requires
        forall|k: usize, r: Request| k < n ==> call_requires(*ask, (k, r)),
        forall|k: usize, c: &RequestContent, r: Response| k < n ==> call_requires(*respond, (k, c, r)),
    ensures
        request_chain_gives(*ask, *respond, n as nat, request, res),
{
    let ghost mut handed: Seq<Request> = Seq::empty();
    let ghost mut answers: Seq<MiddleWareResult> = Seq::empty();
    let mut current = request;
    for i in 0..n
        invariant
            forall|k: usize, r: Request| k < n ==> call_requires(*ask, (k, r)),
            forall|k: usize, c: &RequestContent, r: Response| k < n ==> call_requires(*respond, (k, c, r)),
            answers.len() == i,
            handed.len() == i,
            i > 0 ==> handed[0] == request,
            last_request_route(request, answers) == RequestRoute::Continue(current),
            forall|k: int| 0 <= k < answers.len() ==> call_ensures(*ask, (k as usize, handed[k]), #[trigger] answers[k]),
            forall|k: int|
                0 <= k < answers.len() - 1 ==> request_route(#[trigger] answers[k]) == RequestRoute::Continue(handed[k + 1]),
    {
        let content = current.content.clone();
        let ghost given = current;
        let answer = ask(i, current);
        proof {
            handed = handed.push(given);
            answers = answers.push(answer);
        }
        match route_request(answer) {
            RequestRoute::Continue(r) => {
                current = r;
            },
            RequestRoute::Respond(r) => {
                let result = download_response_chain(n, respond, &content, r);
                proof {
                    assert(request_chain_trace(*ask, n as nat, request, handed, answers));
                    assert(answers.last() == answer);
                    assert(handed.last() == given);
                }
                return DownloadDecision::Done(result);
            },
            RequestRoute::Stop(result) => {
                proof {
                    assert(request_chain_trace(*ask, n as nat, request, handed, answers));
                    assert(answers.last() == answer);
                }
                return DownloadDecision::Done(result);
            },
        }
    }
    proof {
        assert(request_chain_trace(*ask, n as nat, request, handed, answers));
    }
    DownloadDecision::Download(current)
}

/// What a request chain's result says of the answers: every middleware but
/// the last one asked handed a request on, to the next one; a request to
/// reschedule (`FinalRequest`) from any middleware, the last one included,
/// ends the processing with that request, not downloaded; `Ignore` drops the
/// request; a response goes through the response chain instead of a
/// download; and a request is downloaded only when every one of the `n`
/// middlewares handed a request on (`IntermediateRequest`), the last handed
/// on being the one downloaded, or when there is no middleware, the request
/// itself.
pub proof fn lemma_request_chain_results<
    F: Fn(usize, Request) -> MiddleWareResult,
    G: Fn(usize, &RequestContent, Response) -> MiddleWareResult,
>(ask: F, respond: G, n: nat, request: Request, res: DownloadDecision)
    requires
        request_chain_gives(ask, respond, n, request, res),
    ensures
        exists|handed: Seq<Request>, answers: Seq<MiddleWareResult>|
            {
                &&& #[trigger] request_chain_trace(ask, n, request, handed, answers)
                &&& forall|k: int|
                    0 <= k < answers.len() - 1 ==> #[trigger] answers[k] == MiddleWareResult::IntermediateRequest(
                        handed[k + 1],
                    )
                &&& answers.len() == 0 ==> n == 0 && res == DownloadDecision::Download(request)
                &&& answers.len() > 0 ==> match answers.last() {
                    MiddleWareResult::FinalRequest(r) => res == DownloadDecision::Done(
                        IntermediateProcessResult::Request(r),
                    ),
                    MiddleWareResult::IntermediateRequest(r) => answers.len() == n && res
                        == DownloadDecision::Download(r),
                    MiddleWareResult::Response(r) => res is Done && response_chain_gives(
                        respond,
                        0,
                        n,
                        handed.last().content,
                        r,
                        res->Done_0,
                    ),
                    MiddleWareResult::Ignore => res == DownloadDecision::Done(IntermediateProcessResult::Ignore),
                }
            },
{
    let (handed, answers) = choose|handed: Seq<Request>, answers: Seq<MiddleWareResult>|
        #[trigger] request_chain_trace(ask, n, request, handed, answers) && match last_request_route(
            request,
            answers,
        ) {
            RequestRoute::Continue(r) => res == DownloadDecision::Download(r),
            RequestRoute::Stop(result) => res == DownloadDecision::Done(result),
            RequestRoute::Respond(r) => res is Done && response_chain_gives(
                respond,
                0,
                n,
                handed.last().content,
                r,
                res->Done_0,
            ),
        };
    assert forall|k: int| 0 <= k < answers.len() - 1 implies #[trigger] answers[k] == MiddleWareResult::IntermediateRequest(
        handed[k + 1],
    ) by {
        assert(request_route(answers[k]) == RequestRoute::Continue(handed[k + 1]));
    }
}

/// What a response chain's result says of the answers: every middleware but
/// the last one asked handed a response on, to the next one; a request
/// (`FinalRequest` or `IntermediateRequest`) from any middleware, the last
/// one included, ends the processing with that request; `Ignore` drops the
/// response; and a response comes out only when every one of the `n`
/// middlewares handed one on, the last handed on being the one that comes
/// out, or when there is no middleware, the response itself.
pub proof fn lemma_response_chain_results<G: Fn(usize, &RequestContent, Response) -> MiddleWareResult>(
    respond: G,
    from: nat,
    n: nat,
    request_content: RequestContent,
    response: Response,
    res: IntermediateProcessResult,
)
    requires
        response_chain_gives(respond, from, n, request_content, response, res),
    ensures
        exists|handed: Seq<Response>, answers: Seq<MiddleWareResult>|
            {
                &&& #[trigger] response_chain_trace(respond, from, n, request_content, response, handed, answers)
                &&& forall|k: int|
                    0 <= k < answers.len() - 1 ==> #[trigger] answers[k] == MiddleWareResult::Response(handed[k + 1])
                &&& answers.len() == 0 ==> n == 0 && res == IntermediateProcessResult::Response(response)
                &&& answers.len() > 0 ==> match answers.last() {
                    MiddleWareResult::FinalRequest(r) => res == IntermediateProcessResult::Request(r),
                    MiddleWareResult::IntermediateRequest(r) => res == IntermediateProcessResult::Request(r),
                    MiddleWareResult::Response(r) => answers.len() == n && res == IntermediateProcessResult::Response(r),
                    MiddleWareResult::Ignore => res == IntermediateProcessResult::Ignore,
                }
            },
{
    let (handed, answers) = choose|handed: Seq<Response>, answers: Seq<MiddleWareResult>|
        #[trigger] response_chain_trace(respond, from, n, request_content, response, handed, answers) && res
            == response_chain_end(response, answers);
    assert forall|k: int| 0 <= k < answers.len() - 1 implies #[trigger] answers[k] == MiddleWareResult::Response(
        handed[k + 1],
    ) by {
        assert(response_route(answers[k]) == ResponseRoute::Continue(handed[k + 1]));
    }
}

/// Where one answer routes: of `process_request`, `FinalRequest` reschedules
/// its request, `IntermediateRequest` hands it on, `Response` skips the
/// download, `Ignore` drops the request; of `process_response`, either kind
/// of request reschedules it, `Response` hands it on, `Ignore` drops the
/// response; of `process_exception`, `Continue` asks the next middleware,
/// `Request` reschedules it, `Response` starts the response chain; of
/// `process_item`, `Item` hands the item on and `Ignore` drops it.
pub proof fn lemma_routes<T>(answer: MiddleWareResult, exception: MiddleWareExceptionResult, product: ItemProduct<T>)
    ensures
        match answer {
            MiddleWareResult::FinalRequest(r) => request_route(answer) == RequestRoute::Stop(
                IntermediateProcessResult::Request(r),
            ) && response_route(answer) == ResponseRoute::Stop(IntermediateProcessResult::Request(r)),
            MiddleWareResult::IntermediateRequest(r) => request_route(answer) == RequestRoute::Continue(r)
                && response_route(answer) == ResponseRoute::Stop(IntermediateProcessResult::Request(r)),
            MiddleWareResult::Response(r) => request_route(answer) == RequestRoute::Respond(r) && response_route(
                answer,
            ) == ResponseRoute::Continue(r),
            MiddleWareResult::Ignore => request_route(answer) == RequestRoute::Stop(IntermediateProcessResult::Ignore)
                && response_route(answer) == ResponseRoute::Stop(IntermediateProcessResult::Ignore),
        },
        match exception {
            MiddleWareExceptionResult::Continue => exception_route(exception) == ExceptionRoute::Continue,
            MiddleWareExceptionResult::Request(r) => exception_route(exception) == ExceptionRoute::Stop(
                IntermediateProcessResult::Request(r),
            ),
            MiddleWareExceptionResult::Response(r) => exception_route(exception) == ExceptionRoute::Respond(r),
        },
        match product {
            ItemProduct::Item(x) => item_route(product) == Some(x),
            ItemProduct::Ignore => item_route(product) == None::<T>,
        },
{
}

// After a failed download the middlewares' `process_exception` methods are
// asked one after the other. Which one is asked next, and when the asking
// stops, is a step machine: it says which middleware to ask, the engine makes
// that call (locking the middleware) and hands the answer back.

/// What the exception chain asks for next.
pub enum ExceptionStep {
    /// Middleware `k` is to process the download error.
    Ask(usize),
    /// This response goes through the `process_response` chain.
    Respond(Response),
    /// Processing ends with this result.
    Done(IntermediateProcessResult),
}

/// The first step of an exception chain of `n` middlewares, and the
/// middleware it asks: the first middleware, or, with none, the request is
/// dropped.
pub open spec fn exception_start(n: nat) -> (ExceptionStep, Option<nat>) {
    if n > 0 {
        (ExceptionStep::Ask(0), Some(0))
    } else {
        (ExceptionStep::Done(IntermediateProcessResult::Ignore), None)
    }
}

/// The step after middleware `k` of `n` answered `answer`, and the middleware
/// it asks: on `Continue` the next middleware, or, after the last one, the
/// request is dropped; a request ends the processing; a response goes through
/// the response chain. Only `Continue` asks anything more.
pub open spec fn exception_next(n: nat, k: nat, answer: MiddleWareExceptionResult) -> (ExceptionStep, Option<nat>) {
    match exception_route(answer) {
        ExceptionRoute::Continue => if k + 1 < n {
            (ExceptionStep::Ask((k + 1) as usize), Some(k + 1))
        } else {
            (ExceptionStep::Done(IntermediateProcessResult::Ignore), None)
        },
        ExceptionRoute::Stop(result) => (ExceptionStep::Done(result), None),
        ExceptionRoute::Respond(r) => (ExceptionStep::Respond(r), None),
    }
}

/// Runs an exception chain of `n` middlewares on `answers`, the answers of the
/// middlewares asked, in order: the steps (the first step, then one step per
/// answer taken) and the middleware whose answer is due. Answers that come
/// when no middleware is asked are not taken.
pub open spec fn exception_run(n: nat, answers: Seq<MiddleWareExceptionResult>) -> (Seq<ExceptionStep>, Option<nat>)
    decreases answers.len(),
{
    if answers.len() == 0 {
        let (step, asked) = exception_start(n);
        (seq![step], asked)
    } else {
        let (steps, asked) = exception_run(n, answers.drop_last());
        match asked {
            Some(k) => {
                let (step, next) = exception_next(n, k, answers.last());
                (steps.push(step), next)
            },
            None => (steps, None),
        }
    }
}

/// Each middleware's `process_exception` is asked at most once, in the order
/// of the middlewares, and none after the first answer other than
/// `Continue`: whatever the answers, the `i`-th step asks, if it asks,
/// middleware `i`; every step but the last asks; each step after the first
/// is where the answer before it leads; an answer other than `Continue` gives
/// the last step, which asks nothing; and a middleware is due to answer
/// exactly when the last step asks it.
pub proof fn lemma_exception_chain_asks_once_in_order(n: usize, answers: Seq<MiddleWareExceptionResult>)
    ensures
        ({
            let (steps, asked) = exception_run(n as nat, answers);
            &&& 1 <= steps.len() <= answers.len() + 1
            &&& steps.len() <= n + 1
            &&& steps.last() is Ask ==> steps.len() == answers.len() + 1
            &&& steps[0] == exception_start(n as nat).0
            &&& forall|i: int| 0 <= i < steps.len() && (#[trigger] steps[i]) is Ask ==> steps[i]->Ask_0 == i && i < n
            &&& forall|i: int| 0 <= i < steps.len() - 1 ==> (#[trigger] steps[i]) is Ask
            &&& forall|i: int|
                1 <= i < steps.len() ==> #[trigger] steps[i] == exception_next(n as nat, (i - 1) as nat, answers[i - 1]).0
            &&& forall|i: int|
                0 <= i < steps.len() - 1 && !(#[trigger] answers[i] is Continue) ==> steps.len() == i + 2
                    && !(steps.last() is Ask)
            &&& asked == (if steps.last() is Ask {
                Some((steps.len() - 1) as nat)
            } else {
                None::<nat>
            })
        }),
    decreases answers.len(),
{
    if answers.len() > 0 {
        lemma_exception_chain_asks_once_in_order(n, answers.drop_last());
        let (steps, asked) = exception_run(n as nat, answers.drop_last());
        assert(forall|i: int| 0 <= i < answers.len() - 1 ==> answers.drop_last()[i] == answers[i]);
        match asked {
            Some(k) => {
                let (step, next) = exception_next(n as nat, k, answers.last());
                let steps2 = steps.push(step);
                assert(steps2[steps.len() as int] == step);
                assert(forall|i: int| 0 <= i < steps.len() ==> steps2[i] == steps[i]);
                assert(k == steps.len() - 1);
            },
            None => {},
        }
    }
}

/// What each answer of a middleware of the exception chain leads to, whatever
/// its place in the chain (the last one included): a request is rescheduled,
/// a response goes through the response chain, and `Continue` asks the next
/// middleware, or, after the last one, drops the request. The request is
/// dropped only after the last middleware answered `Continue`, and only
/// `Continue` leaves a middleware to answer.
pub proof fn lemma_exception_answers_lead(n: nat, k: nat, answer: MiddleWareExceptionResult)
    requires
        k < n,
    ensures
        match answer {
            MiddleWareExceptionResult::Continue => if k + 1 < n {
                exception_next(n, k, answer) == (ExceptionStep::Ask((k + 1) as usize), Some(k + 1))
            } else {
                exception_next(n, k, answer) == (ExceptionStep::Done(IntermediateProcessResult::Ignore), None::<nat>)
            },
            MiddleWareExceptionResult::Request(r) => exception_next(n, k, answer) == (
                ExceptionStep::Done(IntermediateProcessResult::Request(r)),
                None::<nat>,
            ),
            MiddleWareExceptionResult::Response(r) => exception_next(n, k, answer) == (
                ExceptionStep::Respond(r),
                None::<nat>,
            ),
        },
        exception_next(n, k, answer).0 == ExceptionStep::Done(IntermediateProcessResult::Ignore) ==> answer
            is Continue && k + 1 == n,
        exception_next(n, k, answer).1 is Some <==> answer is Continue && k + 1 < n,
{
}

/// An exception chain asks the first middleware first; with no middleware,
/// the request is dropped.
pub proof fn lemma_exception_chain_starts(n: nat)
    ensures
        n > 0 ==> exception_start(n) == (ExceptionStep::Ask(0), Some(0nat)),
        n == 0 ==> exception_start(n) == (ExceptionStep::Done(IntermediateProcessResult::Ignore), None::<nat>),
{
}

/// Asks the `process_exception` methods of a chain of middlewares, one
/// step at a time.
pub struct ExceptionChain {
    n: usize,
    asked: Option<usize>,
}

impl ExceptionChain {
    /// The number of middlewares.
    pub closed spec fn middlewares(&self) -> nat {
        self.n as nat
    }

    /// The middleware asked last, whose answer is due.
    pub closed spec fn asked(&self) -> Option<nat> {
        match self.asked {
            Some(k) => Some(k as nat),
            None => None,
        }
    }

    /// An exception chain of `n` middlewares, and its first step.
    pub fn start(n: usize) -> (res: (ExceptionChain, ExceptionStep))
        ensures
            res.0.middlewares() == n,
            (res.1, res.0.asked()) == exception_start(n as nat),
    {
        if n > 0 {
            (ExceptionChain { n, asked: Some(0) }, ExceptionStep::Ask(0))
        } else {
            (ExceptionChain { n, asked: None }, ExceptionStep::Done(IntermediateProcessResult::Ignore))
        }
    }

    /// The next step, after `answer`, the answer of the middleware asked
    /// last.
    pub fn answer(&mut self, answer: MiddleWareExceptionResult) -> (step: ExceptionStep)
        requires
            old(self).asked() is Some,
        ensures
            final(self).middlewares() == old(self).middlewares(),
            (step, final(self).asked()) == exception_next(old(self).middlewares(), old(self).asked()->0, answer),
    {
        let k = match self.asked {
            Some(k) => k,
            None => 0,
        };
        match route_exception(answer) {
            ExceptionRoute::Continue => {
                if self.n > 0 && k < self.n - 1 {
                    self.asked = Some(k + 1);
                    ExceptionStep::Ask(k + 1)
                } else {
                    self.asked = None;
                    ExceptionStep::Done(IntermediateProcessResult::Ignore)
                }
            },
            ExceptionRoute::Stop(result) => {
                self.asked = None;
                ExceptionStep::Done(result)
            },
            ExceptionRoute::Respond(r) => {
                self.asked = None;
                ExceptionStep::Respond(r)
            },
        }
    }
}
// Items go through the pipelines one after the other, in the order the spider
// gave them. As an order of calls is not something a contract on closures can
// state, the feeding is a step machine: it says which pipeline gets which
// item next, the engine makes that call (locking the pipeline) and hands the
// answer back.

/// What the item feed asks for next.
#[derive(Debug, PartialEq)]
pub enum FeedStep<T> {
    /// Pipeline `pipeline` is to process `item`.
    Ask { pipeline: usize, item: T },
    /// Every item has gone through the pipelines.
    Done,
}

/// The item that an answer hands on, if it hands one on.
pub open spec fn handed_on<T>(answer: Option<ItemProduct<T>>) -> Option<T> {
    match answer {
        Some(ItemProduct::Item(x)) => Some(x),
        _ => None,
    }
}

/// The step after `answer` (none at the first step), from `waiting` items
/// with `n` pipelines, pipeline `asked` (if any) having been asked last: an
/// item handed on goes to the next pipeline; an item dropped, or one that has
/// passed every pipeline, makes way for the next waiting item, which goes to
/// the first pipeline; with nothing waiting, the feed is done. The result is
/// the step, the items waiting and the pipeline asked.
pub open spec fn feed_step<T>(waiting: Seq<T>, n: nat, asked: Option<nat>, answer: Option<ItemProduct<T>>) -> (
    FeedStep<T>,
    Seq<T>,
    Option<nat>,
) {
    if asked is Some && handed_on(answer) is Some && asked->0 + 1 < n {
        (FeedStep::Ask { pipeline: (asked->0 + 1) as usize, item: handed_on(answer)->0 }, waiting, Some(asked->0 + 1))
    } else if waiting.len() > 0 && n > 0 {
        (FeedStep::Ask { pipeline: 0, item: waiting[0] }, waiting.drop_first(), Some(0))
    } else {
        (FeedStep::Done, Seq::empty(), None)
    }
}

/// Runs the feed on a sequence of answers: the steps, the items waiting and
/// the pipeline asked last.
pub open spec fn feed_run<T>(waiting: Seq<T>, n: nat, asked: Option<nat>, answers: Seq<Option<ItemProduct<T>>>) -> (
    Seq<FeedStep<T>>,
    Seq<T>,
    Option<nat>,
)
    decreases answers.len(),
{
    if answers.len() == 0 {
        (Seq::empty(), waiting, asked)
    } else {
        let (steps, w, a) = feed_run(waiting, n, asked, answers.drop_last());
        let (step, w2, a2) = feed_step(w, n, a, answers.last());
        (steps.push(step), w2, a2)
    }
}

/// The items that the steps hand to the first pipeline, in order.
pub open spec fn first_handed<T>(steps: Seq<FeedStep<T>>) -> Seq<T>
    decreases steps.len(),
{
    if steps.len() == 0 {
        Seq::empty()
    } else {
        match steps.last() {
            FeedStep::Ask { pipeline, item } => if pipeline == 0 {
                first_handed(steps.drop_last()).push(item)
            } else {
                first_handed(steps.drop_last())
            },
            FeedStep::Done => first_handed(steps.drop_last()),
        }
    }
}

/// Items enter the pipelines in the order in which they wait: whatever the
/// answers, the items handed to the first pipeline are, in order, the first
/// of the items that waited; and each is handed to it only once the item
/// before it was dropped or passed every pipeline (a step goes to a pipeline
/// other than the first only when the last answer handed an item on).
pub proof fn lemma_feed_keeps_item_order<T>(items: Seq<T>, n: usize, answers: Seq<Option<ItemProduct<T>>>)
    ensures
        ({
            let (steps, w, a) = feed_run(items, n as nat, None, answers);
            &&& first_handed(steps).len() <= items.len()
            &&& first_handed(steps) == items.take(first_handed(steps).len() as int)
            &&& (first_handed(steps) + w).len() <= items.len()
            &&& first_handed(steps) + w == items.take((first_handed(steps) + w).len() as int)
        }),
    decreases answers.len(),
{
    if answers.len() > 0 {
        lemma_feed_keeps_item_order(items, n, answers.drop_last());
        let (steps, w, a) = feed_run(items, n as nat, None, answers.drop_last());
        let f = first_handed(steps);
        let (step, w2, a2) = feed_step(w, n as nat, a, answers.last());
        let steps2 = steps.push(step);
        assert(steps2.drop_last() == steps);
        let f2 = first_handed(steps2);
        if a is Some && handed_on(answers.last()) is Some && a->0 + 1 < n {
            assert(f2 == f);
        } else if w.len() > 0 && n > 0 {
            assert(f2 == f.push(w[0]));
            assert(f2 + w2 == f + w);
            assert(f2 == (f + w).take(f2.len() as int));
        } else {
            assert(f2 == f);
            assert(f2 + w2 == f);
            assert(f == (f + w).take(f.len() as int));
        }
        let g = f2 + w2;
        assert(f2 == g.take(f2.len() as int));
        assert(items.take(g.len() as int).take(f2.len() as int) == items.take(f2.len() as int));
    } else {
        assert(items.take(0) == Seq::<T>::empty());
        assert(Seq::<T>::empty() + items == items);
    }
}

/// An item goes through the pipelines in their order, each pipeline asked at
/// most once for it: whatever the answers, every step asks an existing
/// pipeline, and a step that asks a pipeline other than the first comes right
/// after the step that asked the pipeline before it, with the item that this
/// pipeline handed on; the pipeline due to answer is the one the last step
/// asked.
pub proof fn lemma_feed_hands_items_on<T>(items: Seq<T>, n: usize, answers: Seq<Option<ItemProduct<T>>>)
    ensures
        ({
            let (steps, w, a) = feed_run(items, n as nat, None, answers);
            &&& steps.len() == answers.len()
            &&& forall|i: int| 0 <= i < steps.len() && (#[trigger] steps[i]) is Ask ==> steps[i]->pipeline < n
            &&& forall|i: int|
                0 <= i < steps.len() && (#[trigger] steps[i]) is Ask && steps[i]->pipeline > 0 ==> i > 0
                    && steps[i - 1] is Ask && steps[i - 1]->pipeline + 1 == steps[i]->pipeline
                    && handed_on(answers[i]) == Some(steps[i]->item)
            &&& a == (if steps.len() > 0 && steps.last() is Ask {
                Some(steps.last()->pipeline as nat)
            } else {
                None::<nat>
            })
        }),
    decreases answers.len(),
{
    if answers.len() > 0 {
        lemma_feed_hands_items_on(items, n, answers.drop_last());
        let (steps, w, a) = feed_run(items, n as nat, None, answers.drop_last());
        let (step, w2, a2) = feed_step(w, n as nat, a, answers.last());
        let steps2 = steps.push(step);
        assert(forall|i: int| 0 <= i < steps.len() ==> steps2[i] == steps[i]);
        assert(forall|i: int| 0 <= i < steps.len() ==> answers.drop_last()[i] == answers[i]);
        assert(steps2[steps.len() as int] == step);
    }
}
/// What the feed does after each answer: an item handed on by a pipeline
/// that is not the last goes to the next pipeline, with the same items
/// waiting; after any other answer (an item dropped, an item that passed the
/// last pipeline, or no answer yet) the next waiting item goes to the first
/// pipeline, whichever pipeline dropped the item before; with nothing
/// waiting, or no pipeline, the feed is done.
pub proof fn lemma_feed_step_cases<T>(waiting: Seq<T>, n: nat, asked: Option<nat>, answer: Option<ItemProduct<T>>)
    ensures
        ({
            let handed = asked is Some && asked->0 + 1 < n && answer is Some && answer->0 is Item;
            &&& handed ==> feed_step(waiting, n, asked, answer) == (
                FeedStep::Ask { pipeline: (asked->0 + 1) as usize, item: answer->0->Item_0 },
                waiting,
                Some(asked->0 + 1),
            )
            &&& !handed && n > 0 && waiting.len() > 0 ==> feed_step(waiting, n, asked, answer) == (
                FeedStep::Ask { pipeline: 0, item: waiting[0] },
                waiting.drop_first(),
                Some(0nat),
            )
            &&& !handed && (n == 0 || waiting.len() == 0) ==> feed_step(waiting, n, asked, answer) == (
                FeedStep::<T>::Done,
                Seq::<T>::empty(),
                None::<nat>,
            )
        }),
{
}

/// With at least one pipeline, no item is lost: whatever the answers, the
/// items handed to the first pipeline so far, followed by those still
/// waiting, are all the items, in order; so once the feed is done, every item
/// has been handed to the first pipeline.
pub proof fn lemma_feed_hands_every_item<T>(items: Seq<T>, n: usize, answers: Seq<Option<ItemProduct<T>>>)
    requires
        n > 0,
    ensures
        ({
            let (steps, w, a) = feed_run(items, n as nat, None, answers);
            &&& first_handed(steps) + w == items
            &&& steps.len() > 0 && steps.last() is Done ==> first_handed(steps) == items && w.len() == 0
        }),
    decreases answers.len(),
{
    if answers.len() > 0 {
        lemma_feed_hands_every_item(items, n, answers.drop_last());
        let (steps, w, a) = feed_run(items, n as nat, None, answers.drop_last());
        let f = first_handed(steps);
        let (step, w2, a2) = feed_step(w, n as nat, a, answers.last());
        let steps2 = steps.push(step);
        assert(steps2.drop_last() == steps);
        let f2 = first_handed(steps2);
        if a is Some && handed_on(answers.last()) is Some && a->0 + 1 < n {
            assert(f2 == f);
        } else if w.len() > 0 {
            assert(f2 == f.push(w[0]));
            assert(f2 + w2 == f + w);
        } else {
            assert(f2 == f);
            assert(f2 + w2 == f + w);
        }
    } else {
        assert(Seq::<T>::empty() + items == items);
    }
}

/// Feeds items to pipelines, one step at a time.
pub struct ItemFeed<T> {
    items: Vec<T>,
    n_pipelines: usize,
    asked: Option<usize>,
}

impl<T> ItemFeed<T> {
    /// The items that wait for the first pipeline, in order.
    pub closed spec fn waiting(&self) -> Seq<T> {
        self.items@
    }

    /// The number of pipelines.
    pub closed spec fn pipelines(&self) -> nat {
        self.n_pipelines as nat
    }

    /// The pipeline asked last, whose answer is due.
    pub closed spec fn asked(&self) -> Option<nat> {
        match self.asked {
            Some(k) => Some(k as nat),
            None => None,
        }
    }

    /// A feed of `items`, in order, to `n_pipelines` pipelines.
    pub fn new(items: Vec<T>, n_pipelines: usize) -> (feed: Self)
        ensures
            feed.waiting() == items@,
            feed.pipelines() == n_pipelines,
            feed.asked() is None,
    {
        ItemFeed { items, n_pipelines, asked: None }
    }

    /// The next step, after `answer`, the answer of the pipeline asked last
    /// (none at the first step).
    pub fn step(&mut self, answer: Option<ItemProduct<T>>) -> (step: FeedStep<T>)
        ensures
            (step, final(self).waiting(), final(self).asked()) == feed_step(
                old(self).waiting(),
                old(self).pipelines(),
                old(self).asked(),
                answer,
            ),
            final(self).pipelines() == old(self).pipelines(),
    {
        let next = match (self.asked, answer) {
            (Some(k), Some(ItemProduct::Item(x))) => {
                if k < self.n_pipelines && k + 1 < self.n_pipelines {
                    Some((k + 1, x))
                } else {
                    None
                }
            },
            _ => None,
        };
        match next {
            Some((k, x)) => {
                self.asked = Some(k);
                FeedStep::Ask { pipeline: k, item: x }
            },
            None => {
                if self.items.len() > 0 && self.n_pipelines > 0 {
                    let x = self.items.remove(0);
                    self.asked = Some(0);
                    FeedStep::Ask { pipeline: 0, item: x }
                } else {
                    self.items = Vec::new();
                    self.asked = None;
                    FeedStep::Done
                }
            },
        }
    }
}

/// The feed that passes one item through `n_pipelines` pipelines: the
/// first pipeline gets the item, each next one the item that the pipeline
/// before handed on, until one drops it or the last has processed it.
pub fn item_process_chain<T>(item: T, n_pipelines: usize) -> (feed: ItemFeed<T>)
    ensures
        feed.waiting() == seq![item],
        feed.pipelines() == n_pipelines,
        feed.asked() is None,
{
    let mut items: Vec<T> = Vec::new();
    items.push(item);
    ItemFeed::new(items, n_pipelines)
}

/// What becomes of a processed request: a request to reschedule is the only
/// new request; a response is parsed by the spider (`parse`) once, and the
/// requests it gives are the new requests, while the items it gives wait, in
/// order, in a feed to the `n_pipelines` pipelines; a dropped request gives no
/// new request and no item.
pub fn process_outcome<T, A: Fn(Response) -> (Vec<Request>, Vec<T>)>(
    parse: &A,
    n_pipelines: usize,
    outcome: IntermediateProcessResult,
) -> (res: (Vec<Request>, ItemFeed<T>))
    requires
        forall|r: Response| call_requires(*parse, (r,)),
    ensures
        res.1.pipelines() == n_pipelines,
        res.1.asked() is None,
        match outcome {
            IntermediateProcessResult::Request(r) => res.0@ == seq![r] && res.1.waiting().len() == 0,
            IntermediateProcessResult::Ignore => res.0@.len() == 0 && res.1.waiting().len() == 0,
            IntermediateProcessResult::Response(r) => exists|parsed: (Vec<Request>, Vec<T>)|
                #[trigger] call_ensures(*parse, (r,), parsed) && res.0@ == parsed.0@ && res.1.waiting() == parsed.1@,
        },
{
    match outcome {
        IntermediateProcessResult::Request(r) => {
            let mut requests = Vec::new();
            requests.push(r);
            (requests, ItemFeed::new(Vec::new(), n_pipelines))
        },
        IntermediateProcessResult::Response(r) => {
            let (requests, items) = parse(r);
            (requests, ItemFeed::new(items, n_pipelines))
        },
        IntermediateProcessResult::Ignore => (Vec::new(), ItemFeed::new(Vec::new(), n_pipelines)),
    }
}

/// A task sent to worker, including a request and the crawler related to this request.
pub struct Task<C> {
    /// The request
    pub request: Request,
    /// The crawler that issues the request
    pub crawler: C,
}

/// The tasks for requests that one crawler issued: one task per request, in
/// order, each with a clone of the crawler's handle.
pub fn tasks_of<C: Clone>(requests: Vec<Request>, crawler: &C) -> (tasks: Vec<Task<C>>)
    ensures
        tasks@.len() == requests@.len(),
        forall|i: int|
            0 <= i < tasks@.len() ==> (#[trigger] tasks@[i]).request == requests@[i] && cloned::<C>(
                *crawler,
                tasks@[i].crawler,
            ),
{
    let mut requests = requests;
    let ghost all = requests@;
    let mut tasks: Vec<Task<C>> = Vec::new();
    let n = requests.len();
    let mut i: usize = 0;
    while i < n
        invariant
            i <= n,
            n == all.len(),
            requests@ == all.skip(i as int),
            tasks@.len() == i,
            forall|j: int|
                0 <= j < i ==> (#[trigger] tasks@[j]).request == all[j] && cloned::<C>(
                    *crawler,
                    tasks@[j].crawler,
                ),
        decreases n - i,
    {
        let request = requests.remove(0);
        assert(all.skip(i as int).drop_first() == all.skip(i + 1));
        tasks.push(Task { request, crawler: crawler.clone() });
        i += 1;
    }
    tasks
}

/// `tasks` are the tasks for the requests `parts` of the crawlers, in order:
/// for each crawler in turn, one task per request of its part, in order, each
/// with a clone of that crawler's handle.
pub open spec fn tagged_by<C: Clone>(crawlers: Seq<C>, parts: Seq<Vec<Request>>, tasks: Seq<Task<C>>) -> bool
    decreases crawlers.len(),
{
    if crawlers.len() == 0 {
        parts.len() == 0 && tasks.len() == 0
    } else {
        let own = parts.last()@;
        let before = tasks.len() - own.len();
        &&& parts.len() == crawlers.len()
        &&& own.len() <= tasks.len()
        &&& tagged_by(crawlers.drop_last(), parts.drop_last(), tasks.take(before))
        &&& forall|j: int|
            0 <= j < own.len() ==> (#[trigger] tasks[before + j]).request == own[j] && cloned::<C>(
                crawlers.last(),
                tasks[before + j].crawler,
            )
    }
}

proof fn lemma_tagged_by_push<C: Clone>(
    crawlers: Seq<C>,
    parts: Seq<Vec<Request>>,
    tasks: Seq<Task<C>>,
    c: C,
    part: Vec<Request>,
    more: Seq<Task<C>>,
)
    requires
        tagged_by(crawlers, parts, tasks),
        more.len() == part@.len(),
        forall|j: int| 0 <= j < more.len() ==> (#[trigger] more[j]).request == part@[j] && cloned::<C>(c, more[j].crawler),
    ensures
        tagged_by(crawlers.push(c), parts.push(part), tasks + more),
{
    let all = tasks + more;
    assert(crawlers.push(c).drop_last() == crawlers);
    assert(parts.push(part).drop_last() == parts);
    assert(all.take(tasks.len() as int) == tasks);
    assert forall|j: int| 0 <= j < more.len() implies (#[trigger] all[tasks.len() + j]).request == part@[j] && cloned::<C>(
        c,
        all[tasks.len() + j].crawler,
    ) by {
        assert(all[tasks.len() + j] == more[j]);
    }
    if crawlers.len() == 0 {
        assert(tasks.len() == 0);
    }
}

/// The tasks for the start requests of the crawlers (`start_requests(c)`
/// gives the start requests of crawler `c`): for each crawler in turn, one
/// task per start request, in order, each with a clone of that crawler's
/// handle.
pub fn crawler_tasks<C: Clone, S: Fn(&C) -> Vec<Request>>(crawlers: &Vec<C>, start_requests: &S) -> (tasks: Vec<Task<C>>)
    requires
        forall|c: &C| call_requires(*start_requests, (c,)),
    ensures
        exists|parts: Seq<Vec<Request>>|
            #[trigger] tagged_by(crawlers@, parts, tasks@) && forall|i: int|
                0 <= i < crawlers@.len() ==> call_ensures(*start_requests, (&crawlers@[i],), #[trigger] parts[i]),
{
    let mut tasks: Vec<Task<C>> = Vec::new();
    let ghost mut parts: Seq<Vec<Request>> = Seq::empty();
    let n = crawlers.len();
    for i in 0..n
        invariant
            n == crawlers@.len(),
            forall|c: &C| call_requires(*start_requests, (c,)),
            parts.len() == i,
            tagged_by(crawlers@.take(i as int), parts, tasks@),
            forall|k: int| 0 <= k < i ==> call_ensures(*start_requests, (&crawlers@[k],), #[trigger] parts[k]),
    {
        let crawler = &crawlers[i];
        let requests = start_requests(crawler);
        let ghost part = requests;
        let more = tasks_of(requests, crawler);
        proof {
            lemma_tagged_by_push(crawlers@.take(i as int), parts, tasks@, *crawler, part, more@);
            assert(crawlers@.take(i as int).push(*crawler) == crawlers@.take(i + 1));
            parts = parts.push(part);
        }
        let mut more = more;
        tasks.append(&mut more);
    }
    assert(crawlers@.take(n as int) == crawlers@);
    tasks
}

/// The number of workers that hold a task counts the `true` entries: it is
/// zero exactly when no worker holds a task.
pub proof fn lemma_busy_count_counts(b: Seq<bool>)
    ensures
        busy_count(b) == b.filter(|x: bool| x).len(),
        busy_count(b) <= b.len(),
        busy_count(b) == 0 <==> forall|w: int| 0 <= w < b.len() ==> !b[w],
    decreases b.len(),
{
    reveal(Seq::filter);
    if b.len() > 0 {
        lemma_busy_count_counts(b.drop_last());
        if busy_count(b) == 0 {
            lemma_idle_when_none_busy(b);
        } else {
            assert(!(forall|w: int| 0 <= w < b.len() ==> !b[w])) by {
                if forall|w: int| 0 <= w < b.len() ==> !b[w] {
                    assert(forall|w: int| 0 <= w < b.len() - 1 ==> b.drop_last()[w] == b[w]);
                    assert(!b[b.len() - 1]);
                }
            }
        }
    }
}

/// Feeding worker `i`: with tasks waiting, worker `i` gets the oldest one,
/// which leaves the queue, and holds a task; with none waiting, nothing
/// changes, and the engine waits exactly when some worker holds a task and
/// shuts down exactly when none does.
pub proof fn lemma_send_answer_cases<T>(q: Seq<T>, busy: Seq<bool>, i: usize)
    ensures
        q.len() > 0 ==> send_answer(q, busy, i) == (
            EngineAction::Dispatch { worker_id: i, task: q[0] },
            q.drop_first(),
            busy.update(i as int, true),
        ),
        q.len() == 0 ==> send_answer(q, busy, i).1 == q && send_answer(q, busy, i).2 == busy,
        q.len() == 0 ==> (send_answer(q, busy, i).0 == EngineAction::<T>::Wait <==> exists|w: int|
            0 <= w < busy.len() && busy[w]),
        q.len() == 0 ==> (send_answer(q, busy, i).0 == EngineAction::<T>::Shutdown <==> forall|w: int|
            0 <= w < busy.len() ==> !busy[w]),
{
    lemma_busy_count_counts(busy);
}

/// The tasks tagged for the crawlers carry exactly their requests: the
/// requests of the tasks, in order, are the crawlers' parts one after the
/// other, one part per crawler.
pub proof fn lemma_tagged_requests<C: Clone>(crawlers: Seq<C>, parts: Seq<Vec<Request>>, tasks: Seq<Task<C>>)
    requires
        tagged_by(crawlers, parts, tasks),
    ensures
        parts.len() == crawlers.len(),
        tasks.map_values(|t: Task<C>| t.request) == parts.map_values(|p: Vec<Request>| p@).flatten(),
    decreases crawlers.len(),
{
    let ps = parts.map_values(|p: Vec<Request>| p@);
    ps.lemma_flatten_and_flatten_alt_are_equivalent();
    if crawlers.len() == 0 {
        assert(tasks.map_values(|t: Task<C>| t.request) =~= Seq::<Request>::empty());
    } else {
        let own = parts.last()@;
        let before = tasks.len() - own.len();
        lemma_tagged_requests(crawlers.drop_last(), parts.drop_last(), tasks.take(before));
        let ps0 = parts.drop_last().map_values(|p: Vec<Request>| p@);
        ps0.lemma_flatten_and_flatten_alt_are_equivalent();
        assert(ps.drop_last() =~= ps0);
        assert(ps.last() == own);
        let head = tasks.take(before).map_values(|t: Task<C>| t.request);
        assert(tasks.map_values(|t: Task<C>| t.request) =~= head + own) by {
            assert forall|j: int| 0 <= j < own.len() implies #[trigger] tasks[before + j].request == own[j] by {}
            assert forall|i: int| before <= i < tasks.len() implies tasks[i].request == own[i - before] by {
                assert(tasks[before + (i - before)].request == own[i - before]);
            }
        }
    }
}

/// Task `t` belongs to one of the crawlers: its handle is a clone of one of
/// theirs.
pub open spec fn owned_by<C: Clone>(t: Task<C>, crawlers: Seq<C>) -> bool {
    exists|i: int| 0 <= i < crawlers.len() && cloned::<C>(crawlers[i], #[trigger] t.crawler)
}

/// Every task tagged for the crawlers belongs to one of them.
pub proof fn lemma_tagged_tasks_are_owned<C: Clone>(crawlers: Seq<C>, parts: Seq<Vec<Request>>, tasks: Seq<Task<C>>)
    requires
        tagged_by(crawlers, parts, tasks),
    ensures
        forall|i: int| 0 <= i < tasks.len() ==> owned_by(#[trigger] tasks[i], crawlers),
    decreases crawlers.len(),
{
    if crawlers.len() > 0 {
        let own = parts.last()@;
        let before = tasks.len() - own.len();
        lemma_tagged_tasks_are_owned(crawlers.drop_last(), parts.drop_last(), tasks.take(before));
        assert forall|i: int| 0 <= i < tasks.len() implies owned_by(#[trigger] tasks[i], crawlers) by {
            if i < before {
                assert(tasks.take(before)[i] == tasks[i]);
                assert(owned_by(tasks.take(before)[i], crawlers.drop_last()));
                let k = choose|k: int|
                    0 <= k < crawlers.drop_last().len() && cloned::<C>(crawlers.drop_last()[k], #[trigger] tasks[i].crawler);
                assert(crawlers[k] == crawlers.drop_last()[k]);
            } else {
                let j = i - before;
                assert(tasks[before + j] == tasks[i]);
                assert(cloned::<C>(crawlers[crawlers.len() - 1], tasks[i].crawler));
            }
        }
    }
}

/// Scheduling the start tasks of the crawlers keeps every waiting task with
/// its crawler: if every task in the queue belongs to one of the crawlers, so
/// does every task in the queue after the tasks tagged for them are
/// scheduled (`EngineCore::init_requests` appends them to the queue).
pub proof fn lemma_init_keeps_tasks_owned<C: Clone>(
    queue: Seq<Task<C>>,
    crawlers: Seq<C>,
    parts: Seq<Vec<Request>>,
    tasks: Seq<Task<C>>,
)
    requires
        forall|i: int| 0 <= i < queue.len() ==> owned_by(#[trigger] queue[i], crawlers),
        tagged_by(crawlers, parts, tasks),
    ensures
        forall|i: int| 0 <= i < (queue + tasks).len() ==> owned_by(#[trigger] (queue + tasks)[i], crawlers),
{
    lemma_tagged_tasks_are_owned(crawlers, parts, tasks);
    assert forall|i: int| 0 <= i < (queue + tasks).len() implies owned_by(#[trigger] (queue + tasks)[i], crawlers) by {
        if i < queue.len() {
            assert((queue + tasks)[i] == queue[i]);
        } else {
            assert((queue + tasks)[i] == tasks[i - queue.len()]);
        }
    }
}

/// What feeding one worker does.
#[derive(Debug, PartialEq)]
pub enum EngineAction<T> {
    /// Worker `worker_id` gets `task`.
    Dispatch { worker_id: usize, task: T },
    /// Nothing waits, but workers still hold tasks: wait for their reports.
    Wait,
    /// Nothing waits and no worker holds a task: stop the workers.
    Shutdown,
}

/// The number of workers that hold a task.
pub open spec fn busy_count(busy: Seq<bool>) -> nat
    decreases busy.len(),
{
    if busy.len() == 0 {
        0
    } else {
        busy_count(busy.drop_last()) + if busy.last() {
            1nat
        } else {
            0nat
        }
    }
}

/// Feeding the idle workers from the queue `q`, in the order of their ids:
/// while tasks wait, each idle worker gets the oldest one and holds it. The
/// result is the tasks sent (to whom, what), the queue left and which
/// workers hold a task.
pub open spec fn feed_idle<T>(q: Seq<T>, busy: Seq<bool>) -> (Seq<(usize, T)>, Seq<T>, Seq<bool>)
    decreases busy.len(),
{
    if busy.len() == 0 {
        (Seq::empty(), q, busy)
    } else {
        let (sent, rest, b) = feed_idle(q, busy.drop_last());
        let w = (busy.len() - 1) as usize;
        if !busy.last() && rest.len() > 0 {
            (sent.push((w, rest[0])), rest.drop_first(), b.push(true))
        } else {
            (sent, rest, b.push(busy.last()))
        }
    }
}

/// Feeding worker `i` alone: an idle worker gets the oldest waiting task;
/// with nothing waiting, the engine waits while workers hold tasks and shuts
/// down when none does.
pub open spec fn send_answer<T>(q: Seq<T>, busy: Seq<bool>, i: usize) -> (EngineAction<T>, Seq<T>, Seq<bool>) {
    if q.len() > 0 {
        (EngineAction::Dispatch { worker_id: i, task: q[0] }, q.drop_first(), busy.update(i as int, true))
    } else if busy_count(busy) > 0 {
        (EngineAction::Wait, q, busy)
    } else {
        (EngineAction::Shutdown, q, busy)
    }
}

/// The engine's answer to a report of worker `worker_id`, which held a task:
/// the worker is idle again, the new tasks join the queue, and the idle
/// workers are fed.
pub open spec fn report_answer<T>(q: Seq<T>, busy: Seq<bool>, worker_id: usize, new_tasks: Seq<T>) -> (
    Seq<(usize, T)>,
    Seq<T>,
    Seq<bool>,
) {
    feed_idle(q + new_tasks, busy.update(worker_id as int, false))
}

/// The tasks of a sequence of dispatches, in order.
pub open spec fn sent_tasks<T>(sent: Seq<(usize, T)>) -> Seq<T> {
    sent.map_values(|d: (usize, T)| d.1)
}

/// How many of the dispatches went to worker `w`.
pub open spec fn sent_to<T>(sent: Seq<(usize, T)>, w: usize) -> nat
    decreases sent.len(),
{
    if sent.len() == 0 {
        0
    } else {
        sent_to(sent.drop_last(), w) + if sent.last().0 == w {
            1nat
        } else {
            0nat
        }
    }
}

/// The tasks that a sequence of reports brings, in order; a report names the
/// worker that reports and the tasks that its request produced.
pub open spec fn reported_tasks<T>(reports: Seq<(usize, Seq<T>)>) -> Seq<T>
    decreases reports.len(),
{
    if reports.len() == 0 {
        Seq::empty()
    } else {
        reported_tasks(reports.drop_last()) + reports.last().1
    }
}

/// How many of the reports came from worker `w`.
pub open spec fn reports_from<T>(reports: Seq<(usize, Seq<T>)>, w: usize) -> nat
    decreases reports.len(),
{
    if reports.len() == 0 {
        0
    } else {
        reports_from(reports.drop_last(), w) + if reports.last().0 == w {
            1nat
        } else {
            0nat
        }
    }
}

/// The engine's run loop from the queue `q` with workers `busy`, on a
/// sequence of reports: the tasks dispatched (to whom, what), the queue left,
/// which workers hold a task, and the reports taken. A report is taken only
/// from a worker that holds a task.
pub open spec fn run_reports<T>(q: Seq<T>, busy: Seq<bool>, reports: Seq<(usize, Seq<T>)>) -> (
    Seq<(usize, T)>,
    Seq<T>,
    Seq<bool>,
    Seq<(usize, Seq<T>)>,
)
    decreases reports.len(),
{
    if reports.len() == 0 {
        (Seq::empty(), q, busy, Seq::empty())
    } else {
        let (sent, rest, b, taken) = run_reports(q, busy, reports.drop_last());
        let (w, new_tasks) = reports.last();
        if w < b.len() && b[w as int] {
            let (sent2, rest2, b2) = report_answer(rest, b, w, new_tasks);
            (sent + sent2, rest2, b2, taken.push(reports.last()))
        } else {
            (sent, rest, b, taken)
        }
    }
}

/// A whole run of the engine with `n_workers` workers, all idle, from the
/// queue `q`: the start, then the reports.
pub open spec fn engine_run<T>(q: Seq<T>, n_workers: nat, reports: Seq<(usize, Seq<T>)>) -> (
    Seq<(usize, T)>,
    Seq<T>,
    Seq<bool>,
    Seq<(usize, Seq<T>)>,
) {
    let (sent, rest, b) = feed_idle(q, Seq::new(n_workers, |i: int| false));
    let (sent2, rest2, b2, taken) = run_reports(rest, b, reports);
    (sent + sent2, rest2, b2, taken)
}

proof fn lemma_sent_to_concat<T>(a: Seq<(usize, T)>, b: Seq<(usize, T)>, w: usize)
    ensures
        sent_to(a + b, w) == sent_to(a, w) + sent_to(b, w),
    decreases b.len(),
{
    if b.len() == 0 {
        assert(a + b == a);
    } else {
        lemma_sent_to_concat(a, b.drop_last(), w);
        assert((a + b).drop_last() == a + b.drop_last());
    }
}

/// Feeding the idle workers: the tasks sent followed by the queue left are
/// the queue; a worker that held a task still holds it and gets none; an idle
/// worker gets at most one task, and holds a task just when it got one; when
/// a worker is left idle, nothing waits.
pub proof fn lemma_feed_idle<T>(q: Seq<T>, busy: Seq<bool>)
    requires
        busy.len() <= usize::MAX,
    ensures
        ({
            let (sent, rest, b) = feed_idle(q, busy);
            &&& sent_tasks(sent) + rest == q
            &&& b.len() == busy.len()
            &&& forall|k: int| 0 <= k < sent.len() ==> (#[trigger] sent[k]).0 < busy.len()
            &&& forall|w: usize|
                w < busy.len() ==> #[trigger] sent_to(sent, w) == (if !busy[w as int] && b[w as int] {
                    1nat
                } else {
                    0nat
                })
            &&& forall|w: int| 0 <= w < busy.len() && busy[w] ==> #[trigger] b[w]
            &&& forall|w: int| 0 <= w < busy.len() && !(#[trigger] b[w]) ==> rest.len() == 0
            &&& busy_count(b) == busy_count(busy) + sent.len()
        }),
    decreases busy.len(),
{
    let (sent, rest, b) = feed_idle(q, busy);
    if busy.len() == 0 {
        assert(sent_tasks(sent) + rest == q);
    } else {
        let pb = busy.drop_last();
        lemma_feed_idle(q, pb);
        let (s0, r0, b0) = feed_idle(q, pb);
        let w = (busy.len() - 1) as usize;
        assert(b.drop_last() == b0);
        assert(forall|k: int| 0 <= k < s0.len() ==> (#[trigger] s0[k]).0 < w);
        lemma_sent_to_none(s0, w);
        if !busy.last() && r0.len() > 0 {
            assert(sent_tasks(sent) == sent_tasks(s0).push(r0[0]));
            assert(sent_tasks(s0).push(r0[0]) + r0.drop_first() == sent_tasks(s0) + r0);
            assert forall|v: usize| v < busy.len() implies #[trigger] sent_to(sent, v) == (if !busy[v as int]
                && b[v as int] {
                1nat
            } else {
                0nat
            }) by {
                assert(sent == s0.push((w, r0[0])));
                assert(sent.drop_last() == s0);
                assert(sent.last().0 == w);
                if v < w {
                    assert(busy[v as int] == pb[v as int]);
                    assert(b[v as int] == b0[v as int]);
                    assert(sent_to(s0, v) == (if !pb[v as int] && b0[v as int] { 1nat } else { 0nat }));
                    assert(sent_to(sent, v) == sent_to(s0, v));
                } else {
                    assert(v == w);
                    assert(sent_to(sent, v) == sent_to(s0, v) + 1);
                }
            }
        } else {
            assert(sent_tasks(sent) == sent_tasks(s0));
            assert forall|v: usize| v < busy.len() implies #[trigger] sent_to(sent, v) == (if !busy[v as int]
                && b[v as int] {
                1nat
            } else {
                0nat
            }) by {
                if v < w {
                    assert(busy[v as int] == pb[v as int]);
                    assert(b[v as int] == b0[v as int]);
                }
            }
        }
    }
}

proof fn lemma_sent_to_none<T>(sent: Seq<(usize, T)>, w: usize)
    requires
        forall|k: int| 0 <= k < sent.len() ==> (#[trigger] sent[k]).0 < w,
    ensures
        sent_to(sent, w) == 0,
    decreases sent.len(),
{
    if sent.len() > 0 {
        lemma_sent_to_none(sent.drop_last(), w);
    }
}


proof fn lemma_sent_tasks_concat<T>(a: Seq<(usize, T)>, b: Seq<(usize, T)>)
    ensures
        sent_tasks(a + b) == sent_tasks(a) + sent_tasks(b),
{
    assert(sent_tasks(a + b) =~= sent_tasks(a) + sent_tasks(b));
}

/// Whatever the reports, from a state where a worker is idle only when
/// nothing waits: the tasks dispatched followed by the tasks waiting are the
/// tasks that waited followed by the tasks of the reports taken, in order (no
/// task is lost, duplicated or overtaken); each worker has been sent as many
/// tasks as it reported, plus the one it holds, if any; and a worker is idle
/// only when nothing waits.
pub proof fn lemma_run_reports<T>(q: Seq<T>, busy: Seq<bool>, reports: Seq<(usize, Seq<T>)>)
    requires
        busy.len() <= usize::MAX,
        forall|w: int| 0 <= w < busy.len() && !(#[trigger] busy[w]) ==> q.len() == 0,
    ensures
        ({
            let (sent, rest, b, taken) = run_reports(q, busy, reports);
            &&& sent_tasks(sent) + rest == q + reported_tasks(taken)
            &&& b.len() == busy.len()
            &&& forall|w: usize|
                w < busy.len() ==> #[trigger] sent_to(sent, w) + (if busy[w as int] { 1nat } else { 0nat })
                    == reports_from(taken, w) + (if b[w as int] { 1nat } else { 0nat })
            &&& forall|w: int| 0 <= w < b.len() && !(#[trigger] b[w]) ==> rest.len() == 0
        }),
    decreases reports.len(),
{
    if reports.len() == 0 {
        assert(Seq::<T>::empty() + q == q + Seq::<T>::empty());
        assert(sent_tasks(Seq::<(usize, T)>::empty()) == Seq::<T>::empty());
    } else {
        lemma_run_reports(q, busy, reports.drop_last());
        let (sent, rest, b, taken) = run_reports(q, busy, reports.drop_last());
        let (w, new_tasks) = reports.last();
        if w < b.len() && b[w as int] {
            let b1 = b.update(w as int, false);
            lemma_feed_idle(rest + new_tasks, b1);
            let (s2, r2, b2) = feed_idle(rest + new_tasks, b1);
            let taken2 = taken.push(reports.last());
            lemma_sent_tasks_concat(sent, s2);
            assert(taken2.drop_last() == taken);
            assert(reported_tasks(taken2) == reported_tasks(taken) + new_tasks);
            assert(sent_tasks(sent + s2) + r2 == q + reported_tasks(taken2)) by {
                assert(sent_tasks(s2) + r2 == rest + new_tasks);
                assert(sent_tasks(sent) + sent_tasks(s2) + r2 == sent_tasks(sent) + (sent_tasks(s2) + r2));
                assert(q + reported_tasks(taken) + new_tasks == q + (reported_tasks(taken) + new_tasks));
                assert(sent_tasks(sent) + (rest + new_tasks) == (sent_tasks(sent) + rest) + new_tasks);
            }
            assert forall|v: usize| v < busy.len() implies #[trigger] sent_to(sent + s2, v) + (if busy[v as int] {
                1nat
            } else {
                0nat
            }) == reports_from(taken2, v) + (if b2[v as int] { 1nat } else { 0nat }) by {
                lemma_sent_to_concat(sent, s2, v);
                assert(sent_to(s2, v) == (if !b1[v as int] && b2[v as int] { 1nat } else { 0nat }));
                assert(sent_to(sent, v) + (if busy[v as int] { 1nat } else { 0nat }) == reports_from(taken, v) + (
                if b[v as int] {
                    1nat
                } else {
                    0nat
                }));
                if v != w {
                    assert(b1[v as int] == b[v as int]);
                    if b[v as int] {
                        assert(b2[v as int]);
                    }
                }
            }
        }
    }
}

/// A whole run, start included: every task scheduled is handed out at most
/// once, in the order in which it was scheduled; at every moment each worker
/// holds at most one task (it has been sent as many tasks as it reported,
/// plus one exactly when it holds a task); and when no worker holds a task,
/// nothing waits, so every task scheduled (at the start or by a report taken)
/// has been handed out, unless there is no worker at all.
pub proof fn lemma_engine_run<T>(q: Seq<T>, n_workers: usize, reports: Seq<(usize, Seq<T>)>)
    ensures
        ({
            let (sent, rest, b, taken) = engine_run(q, n_workers as nat, reports);
            &&& sent_tasks(sent) + rest == q + reported_tasks(taken)
            &&& b.len() == n_workers
            &&& forall|w: usize|
                w < n_workers ==> #[trigger] sent_to(sent, w) == reports_from(taken, w) + (if b[w as int] {
                    1nat
                } else {
                    0nat
                })
            &&& (n_workers > 0 && busy_count(b) == 0) ==> rest.len() == 0 && sent_tasks(sent) == q
                + reported_tasks(taken)
        }),
{
    let idle = Seq::new(n_workers as nat, |i: int| false);
    lemma_feed_idle(q, idle);
    let (s0, r0, b0) = feed_idle(q, idle);
    lemma_run_reports(r0, b0, reports);
    let (s1, r1, b1, taken) = run_reports(r0, b0, reports);
    lemma_sent_tasks_concat(s0, s1);
    assert(sent_tasks(s0 + s1) + r1 == q + reported_tasks(taken)) by {
        assert(sent_tasks(s0) + sent_tasks(s1) + r1 == sent_tasks(s0) + (sent_tasks(s1) + r1));
        assert(sent_tasks(s0) + (r0 + reported_tasks(taken)) == (sent_tasks(s0) + r0) + reported_tasks(taken));
    }
    assert forall|w: usize| w < n_workers implies #[trigger] sent_to(s0 + s1, w) == reports_from(taken, w) + (
    if b1[w as int] {
        1nat
    } else {
        0nat
    }) by {
        lemma_sent_to_concat(s0, s1, w);
        assert(sent_to(s1, w) + (if b0[w as int] { 1nat } else { 0nat }) == reports_from(taken, w) + (if b1[w as int] {
            1nat
        } else {
            0nat
        }));
        assert(!idle[w as int]);
    }
    if n_workers > 0 && busy_count(b1) == 0 {
        lemma_idle_when_none_busy(b1);
        assert(!b1[0]);
        assert(sent_tasks(s0 + s1) + r1 == sent_tasks(s0 + s1));
    }
}

proof fn lemma_idle_when_none_busy(b: Seq<bool>)
    requires
        busy_count(b) == 0,
    ensures
        forall|w: int| 0 <= w < b.len() ==> !b[w],
    decreases b.len(),
{
    if b.len() > 0 {
        lemma_idle_when_none_busy(b.drop_last());
        assert forall|w: int| 0 <= w < b.len() implies !b[w] by {
            if w < b.len() - 1 {
                assert(b[w] == b.drop_last()[w]);
            }
        }
    }
}


proof fn lemma_busy_count_prefix(b: Seq<bool>, i: int)
    requires
        0 <= i < b.len(),
    ensures
        busy_count(b.take(i + 1)) == busy_count(b.take(i)) + if b[i] { 1nat } else { 0nat },
        busy_count(b.take(i)) <= i,
    decreases i,
{
    assert(b.take(i + 1).drop_last() == b.take(i));
    if i > 0 {
        lemma_busy_count_prefix(b, i - 1);
    }
}

/// The decisions of the engine's run loop: it schedules the tasks, knows
/// which workers hold a task (handed to them and not yet reported), and picks
/// what each idle worker gets.
pub struct EngineCore<T> {
    scheduler: Scheduler<T>,
    busy: Vec<bool>,
}

impl<T> EngineCore<T> {
    /// The tasks waiting, the oldest first.
    pub closed spec fn queue(&self) -> Seq<T> {
        self.scheduler@
    }

    /// Which workers hold a task.
    pub closed spec fn busy(&self) -> Seq<bool> {
        self.busy@
    }

    /// The number of workers.
    pub open spec fn workers(&self) -> nat {
        self.busy().len()
    }

    /// An engine with `n_workers` idle workers and nothing scheduled.
    pub fn new(n_workers: usize) -> (e: Self)
        ensures
            e.queue() == Seq::<T>::empty(),
            e.busy() == Seq::new(n_workers as nat, |i: int| false),
    {
        let mut busy: Vec<bool> = Vec::new();
        for i in 0..n_workers
            invariant
                busy@ == Seq::new(i as nat, |j: int| false),
        {
            busy.push(false);
        }
        EngineCore { scheduler: Scheduler::new(), busy }
    }

    /// Whether worker `i` holds a task.
    pub fn is_busy(&self, i: usize) -> (b: bool)
        requires
            i < self.workers(),
        ensures
            b == self.busy()[i as int],
    {
        self.busy[i]
    }

    /// The number of tasks handed to a worker and not yet reported: the
    /// number of workers that hold one.
    pub fn tasks_out(&self) -> (n: usize)
        ensures
            n == busy_count(self.busy()),
    {
        let mut n: usize = 0;
        let len = self.busy.len();
        for i in 0..len
            invariant
                len == self.busy@.len(),
                n == busy_count(self.busy@.take(i as int)),
        {
            proof {
                lemma_busy_count_prefix(self.busy@, i as int);
            }
            if self.busy[i] {
                n = n + 1;
            }
        }
        assert(self.busy@.take(len as int) == self.busy@);
        n
    }

    /// Schedules tasks, in order, after those already waiting.
    pub fn init_requests(&mut self, tasks: Vec<T>)
        ensures
            final(self).queue() == old(self).queue() + tasks@,
            final(self).busy() == old(self).busy(),
    {
        let mut tasks = tasks;
        let ghost added = tasks@;
        let n = tasks.len();
        let mut i: usize = 0;
        while i < n
            invariant
                i <= n,
                tasks@ == added.skip(i as int),
                self.queue() == old(self).queue() + added.take(i as int),
                self.busy() == old(self).busy(),
                n == added.len(),
            decreases n - i,
        {
            let t = tasks.remove(0);
            self.scheduler.enqueue(t);
            assert(added.take(i + 1) == added.take(i as int).push(added[i as int]));
            assert(added.skip(i as int).drop_first() == added.skip(i + 1));
            i += 1;
        }
        assert(added.take(n as int) == added);
    }

    /// Feeds worker `i`: it gets the oldest waiting task; with nothing
    /// waiting, the engine waits while workers hold tasks and shuts down when
    /// none does. The engine itself feeds idle workers only; a worker that
    /// already holds a task and is fed again is counted once among the
    /// workers that hold one.
    pub fn send_one(&mut self, i: usize) -> (action: EngineAction<T>)
        requires
            i < old(self).workers(),
        ensures
            (action, final(self).queue(), final(self).busy()) == send_answer(old(self).queue(), old(self).busy(), i),
    {
        match self.scheduler.dequeue() {
            Some(task) => {
                self.busy.set(i, true);
                EngineAction::Dispatch { worker_id: i, task }
            },
            None => {
                if self.tasks_out() > 0 {
                    EngineAction::Wait
                } else {
                    EngineAction::Shutdown
                }
            },
        }
    }

    /// Feeds the idle workers, in the order of their ids, while tasks wait.
    /// At the start, when every worker is idle, worker `i` gets the `i`-th
    /// oldest task.
    pub fn start(&mut self) -> (sent: Vec<(usize, T)>)
        ensures
            (sent@, final(self).queue(), final(self).busy()) == feed_idle(old(self).queue(), old(self).busy()),
    {
        let mut sent: Vec<(usize, T)> = Vec::new();
        let n = self.busy.len();
        let ghost q0 = self.queue();
        let ghost b0 = self.busy();
        for i in 0..n
            invariant
                n == b0.len(),
                q0 == old(self).queue(),
                b0 == old(self).busy(),
                (sent@, self.queue(), self.busy@.take(i as int)) == feed_idle(q0, b0.take(i as int)),
                self.busy@.len() == n,
                self.busy@.skip(i as int) == b0.skip(i as int),
        {
            let ghost before = self.busy@;
            assert(b0.take(i + 1).drop_last() == b0.take(i as int));
            assert(b0.take(i + 1).last() == b0[i as int]);
            assert(self.busy@[i as int] == b0[i as int]) by {
                assert(self.busy@.skip(i as int)[0] == b0.skip(i as int)[0]);
            }
            if !self.busy[i] && self.scheduler.queue.len() > 0 {
                let task = self.scheduler.dequeue();
                match task {
                    Some(t) => {
                        self.busy.set(i, true);
                        sent.push((i, t));
                    },
                    None => {},
                }
            }
            assert(self.busy@.take(i + 1) == self.busy@.take(i as int).push(self.busy@[i as int]));
            assert(self.busy@.take(i as int) == before.take(i as int));
            assert(self.busy@.skip(i + 1) == b0.skip(i + 1)) by {
                assert(self.busy@.skip(i + 1) =~= before.skip(i + 1));
                assert(before.skip(i + 1) =~= before.skip(i as int).drop_first());
                assert(b0.skip(i + 1) =~= b0.skip(i as int).drop_first());
            }
        }
        assert(self.busy@.take(n as int) == self.busy@);
        assert(b0.take(n as int) == b0);
        sent
    }

    /// Worker `worker_id`, which holds a task, reports the tasks its request
    /// produced: it is idle again, the new tasks are scheduled, and the idle
    /// workers are fed, in the order of their ids.
    pub fn on_result(&mut self, worker_id: usize, new_tasks: Vec<T>) -> (sent: Vec<(usize, T)>)
        requires
            worker_id < old(self).workers(),
            old(self).busy()[worker_id as int],
        ensures
            (sent@, final(self).queue(), final(self).busy()) == report_answer(
                old(self).queue(),
                old(self).busy(),
                worker_id,
                new_tasks@,
            ),
    {
        self.busy.set(worker_id, false);
        self.init_requests(new_tasks);
        self.start()
    }
}

} // verus!
