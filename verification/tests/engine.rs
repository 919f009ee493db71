use std::cell::RefCell;

use hyper::header::Headers;
use hyper::Client;
use url::Url;

use scrupy::downloader::{DownloadError, Method, Request, RequestContent, Response};
use scrupy::downloader_middleware::{DownloaderMiddleware, MiddleWareExceptionResult, MiddleWareResult};
use scrupy::engine::{
    crawler_tasks, download_response_chain, item_process_chain, process_outcome, process_request_chain,
    route_exception, route_item, route_request, route_response, DownloadDecision, EngineAction, EngineCore,
    ExceptionChain, ExceptionRoute, ExceptionStep, FeedStep, IntermediateProcessResult, ItemFeed, RequestRoute,
    ResponseRoute,
};
use scrupy::item_pipeline::{ItemPipeline, ItemProduct};
use scrupy::spider::Spider;

fn content(url: &str) -> RequestContent {
    RequestContent { url: Url::parse(url).unwrap(), method: Method::Get, body: None }
}

fn request(url: &str) -> Request {
    Request { content: content(url), client: Client::new() }
}

fn response(url: &str, body: &[u8]) -> Response {
    Response { url: Url::parse(url).unwrap(), headers: Headers::new(), body: body.to_vec() }
}

/// Answers every hook in the same way and counts the calls.
#[derive(Clone, Copy, PartialEq, Debug)]
enum Answer {
    Pass,
    Redirect(&'static str),
    Reschedule(&'static str),
    Respond(&'static str),
    Ignore,
}

struct Fixed {
    answer: Answer,
    requests_seen: usize,
    responses_seen: usize,
    exceptions_seen: usize,
}

fn fixed(answer: Answer) -> Fixed {
    Fixed { answer, requests_seen: 0, responses_seen: 0, exceptions_seen: 0 }
}

impl DownloaderMiddleware for Fixed {
    fn process_request(&mut self, request: Request) -> MiddleWareResult {
        self.requests_seen += 1;
        match self.answer {
            Answer::Pass => MiddleWareResult::IntermediateRequest(request),
            Answer::Redirect(u) => MiddleWareResult::IntermediateRequest(self::request(u)),
            Answer::Reschedule(u) => MiddleWareResult::FinalRequest(self::request(u)),
            Answer::Respond(u) => MiddleWareResult::Response(response(u, b"cached")),
            Answer::Ignore => MiddleWareResult::Ignore,
        }
    }

    fn process_response(&mut self, request_content: &RequestContent, r: Response) -> MiddleWareResult {
        self.responses_seen += 1;
        match self.answer {
            Answer::Pass => MiddleWareResult::Response(r),
            Answer::Redirect(u) => MiddleWareResult::Response(response(u, request_content.url.as_str().as_bytes())),
            Answer::Reschedule(u) => MiddleWareResult::IntermediateRequest(self::request(u)),
            Answer::Respond(u) => MiddleWareResult::Response(response(u, b"replaced")),
            Answer::Ignore => MiddleWareResult::Ignore,
        }
    }

    fn process_exception(&mut self, _request_content: &RequestContent, _error: &DownloadError) -> MiddleWareExceptionResult {
        self.exceptions_seen += 1;
        match self.answer {
            Answer::Pass | Answer::Ignore | Answer::Redirect(_) => MiddleWareExceptionResult::Continue,
            Answer::Reschedule(u) => MiddleWareExceptionResult::Request(self::request(u)),
            Answer::Respond(u) => MiddleWareExceptionResult::Response(response(u, b"fallback")),
        }
    }
}

fn url_of_request(r: &IntermediateProcessResult) -> String {
    match r {
        IntermediateProcessResult::Request(r) => r.content.url.as_str().to_owned(),
        _ => panic!("not a request"),
    }
}

fn ask_with(mws: &RefCell<Vec<Fixed>>) -> impl Fn(usize, Request) -> MiddleWareResult + '_ {
    move |k: usize, r: Request| mws.borrow_mut()[k].process_request(r)
}

fn respond_with(mws: &RefCell<Vec<Fixed>>) -> impl Fn(usize, &RequestContent, Response) -> MiddleWareResult + '_ {
    move |k: usize, c: &RequestContent, r: Response| mws.borrow_mut()[k].process_response(c, r)
}

fn run_request_chain(mws: &RefCell<Vec<Fixed>>, request: Request) -> DownloadDecision {
    let n = mws.borrow().len();
    process_request_chain(n, &ask_with(mws), &respond_with(mws), request)
}

fn run_response_chain(mws: &RefCell<Vec<Fixed>>, c: &RequestContent, r: Response) -> IntermediateProcessResult {
    let n = mws.borrow().len();
    download_response_chain(n, &respond_with(mws), c, r)
}

/// Runs the exception chain, asking the middlewares as it says, and returns
/// the outcome and the middlewares asked, in order.
fn exception_chain_asking(mws: &RefCell<Vec<Fixed>>, c: &RequestContent, e: DownloadError) -> (IntermediateProcessResult, Vec<usize>) {
    let n = mws.borrow().len();
    let mut asked = vec![];
    let (mut chain, mut step) = ExceptionChain::start(n);
    loop {
        match step {
            ExceptionStep::Ask(k) => {
                asked.push(k);
                let answer = mws.borrow_mut()[k].process_exception(c, &e);
                step = chain.answer(answer);
            },
            ExceptionStep::Respond(r) => return (run_response_chain(mws, c, r), asked),
            ExceptionStep::Done(outcome) => return (outcome, asked),
        }
    }
}

fn run_exception_chain(mws: &RefCell<Vec<Fixed>>, c: &RequestContent, e: DownloadError) -> IntermediateProcessResult {
    exception_chain_asking(mws, c, e).0
}

fn seen(mws: &RefCell<Vec<Fixed>>, f: fn(&Fixed) -> usize) -> Vec<usize> {
    mws.borrow().iter().map(f).collect()
}

#[test]
fn routes_of_process_request() {
    assert!(matches!(route_request(MiddleWareResult::Ignore), RequestRoute::Stop(IntermediateProcessResult::Ignore)));
    match route_request(MiddleWareResult::FinalRequest(request("http://a.org/"))) {
        RequestRoute::Stop(IntermediateProcessResult::Request(r)) => assert_eq!(r.content.url.as_str(), "http://a.org/"),
        _ => panic!("wrong route"),
    }
    match route_request(MiddleWareResult::IntermediateRequest(request("http://b.org/"))) {
        RequestRoute::Continue(r) => assert_eq!(r.content.url.as_str(), "http://b.org/"),
        _ => panic!("wrong route"),
    }
    match route_request(MiddleWareResult::Response(response("http://c.org/", b"x"))) {
        RequestRoute::Respond(r) => assert_eq!(r.body, b"x".to_vec()),
        _ => panic!("wrong route"),
    }
}

#[test]
fn routes_of_process_response() {
    assert!(matches!(route_response(MiddleWareResult::Ignore), ResponseRoute::Stop(IntermediateProcessResult::Ignore)));
    match route_response(MiddleWareResult::IntermediateRequest(request("http://b.org/"))) {
        ResponseRoute::Stop(IntermediateProcessResult::Request(r)) => assert_eq!(r.content.url.as_str(), "http://b.org/"),
        _ => panic!("wrong route"),
    }
    match route_response(MiddleWareResult::FinalRequest(request("http://a.org/"))) {
        ResponseRoute::Stop(IntermediateProcessResult::Request(r)) => assert_eq!(r.content.url.as_str(), "http://a.org/"),
        _ => panic!("wrong route"),
    }
    match route_response(MiddleWareResult::Response(response("http://c.org/", b"y"))) {
        ResponseRoute::Continue(r) => assert_eq!(r.body, b"y".to_vec()),
        _ => panic!("wrong route"),
    }
}

#[test]
fn routes_of_process_exception_and_items() {
    assert!(matches!(route_exception(MiddleWareExceptionResult::Continue), ExceptionRoute::Continue));
    assert!(matches!(
        route_exception(MiddleWareExceptionResult::Request(request("http://a.org/"))),
        ExceptionRoute::Stop(IntermediateProcessResult::Request(_))
    ));
    assert!(matches!(
        route_exception(MiddleWareExceptionResult::Response(response("http://a.org/", b""))),
        ExceptionRoute::Respond(_)
    ));
    assert_eq!(route_item(ItemProduct::Item(7)), Some(7));
    assert_eq!(route_item::<u8>(ItemProduct::Ignore), None);
}

#[test]
fn request_chain_without_middlewares_downloads_the_request() {
    let mws: RefCell<Vec<Fixed>> = RefCell::new(vec![]);
    match run_request_chain(&mws, request("http://a.org/x")) {
        DownloadDecision::Download(r) => assert_eq!(r.content.url.as_str(), "http://a.org/x"),
        _ => panic!("expected a download"),
    }
}

#[test]
fn request_chain_passes_requests_on_in_order() {
    let mws = RefCell::new(vec![fixed(Answer::Redirect("http://b.org/")), fixed(Answer::Pass), fixed(Answer::Redirect("http://c.org/"))]);
    match run_request_chain(&mws, request("http://a.org/")) {
        DownloadDecision::Download(r) => assert_eq!(r.content.url.as_str(), "http://c.org/"),
        _ => panic!("expected a download"),
    }
    assert_eq!(seen(&mws, |m| m.requests_seen), vec![1, 1, 1]);
}

#[test]
fn request_chain_stops_at_final_request() {
    let mws = RefCell::new(vec![fixed(Answer::Pass), fixed(Answer::Reschedule("http://r.org/")), fixed(Answer::Ignore)]);
    match run_request_chain(&mws, request("http://a.org/")) {
        DownloadDecision::Done(r) => assert_eq!(url_of_request(&r), "http://r.org/"),
        _ => panic!("expected no download"),
    }
    assert_eq!(seen(&mws, |m| m.requests_seen), vec![1, 1, 0]);
}

#[test]
fn request_chain_ignore_drops_the_request() {
    let mws = RefCell::new(vec![fixed(Answer::Ignore), fixed(Answer::Pass)]);
    assert!(matches!(run_request_chain(&mws, request("http://a.org/")), DownloadDecision::Done(IntermediateProcessResult::Ignore)));
    assert_eq!(mws.borrow()[1].requests_seen, 0);
}

#[test]
fn response_from_process_request_goes_through_process_response() {
    // The first middleware answers the request with a response: no download,
    // and every middleware's process_response sees that response.
    let mws = RefCell::new(vec![fixed(Answer::Respond("http://cache.org/")), fixed(Answer::Pass)]);
    match run_request_chain(&mws, request("http://a.org/")) {
        DownloadDecision::Done(IntermediateProcessResult::Response(r)) => {
            assert_eq!(r.url.as_str(), "http://cache.org/");
            assert_eq!(r.body, b"replaced".to_vec());
        },
        _ => panic!("expected a response"),
    }
    assert_eq!(seen(&mws, |m| m.requests_seen), vec![1, 0]);
    assert_eq!(seen(&mws, |m| m.responses_seen), vec![1, 1]);
}

#[test]
fn response_chain_passes_the_request_content() {
    let mws = RefCell::new(vec![fixed(Answer::Redirect("http://seen.org/"))]);
    match run_response_chain(&mws, &content("http://origin.org/page"), response("http://a.org/", b"")) {
        IntermediateProcessResult::Response(r) => {
            assert_eq!(r.url.as_str(), "http://seen.org/");
            assert_eq!(r.body, b"http://origin.org/page".to_vec());
        },
        _ => panic!("expected a response"),
    }
}

#[test]
fn response_chain_without_middlewares_keeps_the_response() {
    let mws: RefCell<Vec<Fixed>> = RefCell::new(vec![]);
    match run_response_chain(&mws, &content("http://a.org/"), response("http://a.org/", b"page")) {
        IntermediateProcessResult::Response(r) => assert_eq!(r.body, b"page".to_vec()),
        _ => panic!("expected the response"),
    }
}

#[test]
fn response_chain_request_stops_the_chain() {
    let mws = RefCell::new(vec![fixed(Answer::Reschedule("http://again.org/")), fixed(Answer::Pass)]);
    let r = run_response_chain(&mws, &content("http://a.org/"), response("http://a.org/", b""));
    assert_eq!(url_of_request(&r), "http://again.org/");
    assert_eq!(mws.borrow()[1].responses_seen, 0);
}

#[test]
fn exception_chain_without_answer_drops_the_request() {
    let mws = RefCell::new(vec![fixed(Answer::Pass), fixed(Answer::Ignore)]);
    let e = DownloadError::BadRequest(hyper::Error::Status);
    assert!(matches!(run_exception_chain(&mws, &content("http://a.org/"), e), IntermediateProcessResult::Ignore));
    assert_eq!(seen(&mws, |m| m.exceptions_seen), vec![1, 1]);
}

#[test]
fn exception_chain_response_goes_through_process_response() {
    let mws = RefCell::new(vec![fixed(Answer::Pass), fixed(Answer::Respond("http://fallback.org/")), fixed(Answer::Pass)]);
    let e = DownloadError::BadRequest(hyper::Error::Method);
    match run_exception_chain(&mws, &content("http://a.org/"), e) {
        IntermediateProcessResult::Response(r) => assert_eq!(r.body, b"replaced".to_vec()),
        _ => panic!("expected a response"),
    }
    assert_eq!(seen(&mws, |m| m.exceptions_seen), vec![1, 1, 0]);
    assert_eq!(seen(&mws, |m| m.responses_seen), vec![1, 1, 1]);
}

#[test]
fn exception_chain_request_is_rescheduled() {
    let mws = RefCell::new(vec![fixed(Answer::Reschedule("http://retry.org/")), fixed(Answer::Pass)]);
    let e = DownloadError::BadRequest(hyper::Error::Header);
    let r = run_exception_chain(&mws, &content("http://a.org/"), e);
    assert_eq!(url_of_request(&r), "http://retry.org/");
    assert_eq!(mws.borrow()[1].exceptions_seen, 0);
}

#[test]
fn exception_chain_without_middlewares_drops_the_request() {
    let mws: RefCell<Vec<Fixed>> = RefCell::new(vec![]);
    let err = exception_chain_asking(&mws, &content("http://a.org/"), DownloadError::BadRequest(hyper::Error::Version));
    assert!(matches!(err.0, IntermediateProcessResult::Ignore));
    assert!(err.1.is_empty());
}

#[test]
fn exception_chain_asks_each_middleware_once_in_order() {
    let mws = RefCell::new(vec![fixed(Answer::Pass), fixed(Answer::Ignore), fixed(Answer::Reschedule("http://r.org/")), fixed(Answer::Pass)]);
    let (r, asked) = exception_chain_asking(&mws, &content("http://a.org/"), DownloadError::BadRequest(hyper::Error::Status));
    assert_eq!(url_of_request(&r), "http://r.org/");
    assert_eq!(asked, vec![0, 1, 2]);
    assert_eq!(seen(&mws, |m| m.exceptions_seen), vec![1, 1, 1, 0]);
}

#[test]
fn exception_chain_steps() {
    let (mut chain, step) = ExceptionChain::start(2);
    assert!(matches!(step, ExceptionStep::Ask(0)));
    assert!(matches!(chain.answer(MiddleWareExceptionResult::Continue), ExceptionStep::Ask(1)));
    assert!(matches!(chain.answer(MiddleWareExceptionResult::Continue), ExceptionStep::Done(IntermediateProcessResult::Ignore)));
    let (mut chain, _) = ExceptionChain::start(3);
    match chain.answer(MiddleWareExceptionResult::Response(response("http://f.org/", b"f"))) {
        ExceptionStep::Respond(r) => assert_eq!(r.body, b"f".to_vec()),
        _ => panic!("expected a response"),
    }
    let (_, step) = ExceptionChain::start(0);
    assert!(matches!(step, ExceptionStep::Done(IntermediateProcessResult::Ignore)));
}

struct Collect {
    seen: Vec<u32>,
    drop_above: u32,
}

impl ItemPipeline for Collect {
    type Items = u32;
    fn process_item(&mut self, item: u32) -> ItemProduct<u32> {
        self.seen.push(item);
        if item > self.drop_above {
            ItemProduct::Ignore
        } else {
            ItemProduct::Item(item * 10)
        }
    }
}

#[test]
fn item_chain_hands_items_on_until_dropped() {
    let pipes = RefCell::new(vec![
        Collect { seen: vec![], drop_above: 100 },
        Collect { seen: vec![], drop_above: 20 },
        Collect { seen: vec![], drop_above: 1000 },
    ]);
    assert_eq!(run_feed(&mut item_process_chain(1, 3), &pipes), vec![(0, 1), (1, 10), (2, 100)]);
    assert_eq!(run_feed(&mut item_process_chain(3, 3), &pipes), vec![(0, 3), (1, 30)]);
    assert!(run_feed(&mut item_process_chain(4, 0), &pipes).is_empty());
    let pipes = pipes.borrow();
    assert_eq!(pipes[0].seen, vec![1, 3]);
    assert_eq!(pipes[1].seen, vec![10, 30]);
    assert_eq!(pipes[2].seen, vec![100]);
}

struct Parser;

impl Spider for Parser {
    type ItemType = u32;
    fn name(&self) -> &str {
        "parser"
    }
    fn allowed_domains(&self) -> &[String] {
        &[]
    }
    fn start_urls(&self) -> &[String] {
        &[]
    }
    fn log(&self, _str: &str) {}
    fn parse(&self, response: Response) -> (Vec<Request>, Vec<u32>) {
        (vec![request("http://next.org/")], vec![response.body.len() as u32, 2])
    }
}

/// Runs the item feed, asking the pipelines as it says.
fn run_feed(feed: &mut ItemFeed<u32>, pipes: &RefCell<Vec<Collect>>) -> Vec<(usize, u32)> {
    let mut asked = vec![];
    let mut step = feed.step(None);
    while let FeedStep::Ask { pipeline, item } = step {
        asked.push((pipeline, item));
        let answer = pipes.borrow_mut()[pipeline].process_item(item);
        step = feed.step(Some(answer));
    }
    asked
}

#[test]
fn outcome_of_a_response_is_parsed() {
    let pipes = RefCell::new(vec![Collect { seen: vec![], drop_above: 100 }]);
    let parse = |r: Response| Parser.parse(r);
    let (requests, mut feed) = process_outcome(&parse, 1, IntermediateProcessResult::Response(response("http://a.org/", b"abcde")));
    assert_eq!(requests.len(), 1);
    assert_eq!(requests[0].content.url.as_str(), "http://next.org/");
    assert_eq!(run_feed(&mut feed, &pipes), vec![(0, 5), (0, 2)]);
    assert_eq!(pipes.borrow()[0].seen, vec![5, 2]);
}

#[test]
fn outcome_of_a_request_or_nothing() {
    let pipes = RefCell::new(vec![Collect { seen: vec![], drop_above: 100 }]);
    let parse = |r: Response| Parser.parse(r);
    let (requests, mut feed) = process_outcome(&parse, 1, IntermediateProcessResult::Request(request("http://again.org/")));
    assert_eq!(requests.len(), 1);
    assert_eq!(requests[0].content.url.as_str(), "http://again.org/");
    assert!(run_feed(&mut feed, &pipes).is_empty());
    let (none, mut feed) = process_outcome(&parse, 1, IntermediateProcessResult::Ignore);
    assert!(none.is_empty());
    assert!(run_feed(&mut feed, &pipes).is_empty());
    assert!(pipes.borrow()[0].seen.is_empty());
}

#[test]
fn feed_passes_items_one_after_the_other_in_order() {
    let pipes = RefCell::new(vec![
        Collect { seen: vec![], drop_above: 100 },
        Collect { seen: vec![], drop_above: 20 },
        Collect { seen: vec![], drop_above: 1000 },
    ]);
    let mut feed = ItemFeed::new(vec![1, 3, 2], 3);
    let asked = run_feed(&mut feed, &pipes);
    // 1 passes all three; 3 is dropped by the second (30 > 20); 2 passes all.
    assert_eq!(asked, vec![(0, 1), (1, 10), (2, 100), (0, 3), (1, 30), (0, 2), (1, 20), (2, 200)]);
    assert_eq!(feed.step(None), FeedStep::Done);
}

#[test]
fn feed_without_pipelines_is_done() {
    let mut feed = ItemFeed::new(vec![1u32, 2], 0);
    assert_eq!(feed.step(None), FeedStep::Done);
}

#[test]
fn engine_dispatches_in_scheduling_order() {
    let mut core = EngineCore::new(2);
    core.init_requests(vec![1, 2, 3]);
    assert_eq!(core.start(), vec![(0, 1), (1, 2)]);
    assert_eq!(core.tasks_out(), 2);
    assert_eq!(core.on_result(1, vec![4, 5]), vec![(1, 3)]);
    assert_eq!(core.on_result(0, vec![]), vec![(0, 4)]);
    assert_eq!(core.on_result(0, vec![6]), vec![(0, 5)]);
    assert_eq!(core.on_result(1, vec![]), vec![(1, 6)]);
    assert_eq!(core.tasks_out(), 2);
    assert_eq!(core.on_result(0, vec![]), vec![]);
    assert_eq!(core.tasks_out(), 1);
    assert!(!core.is_busy(0));
    assert_eq!(core.on_result(1, vec![]), vec![]);
    assert_eq!(core.tasks_out(), 0);
}

#[test]
fn engine_waits_for_a_worker_that_still_holds_a_task() {
    let mut core = EngineCore::new(2);
    core.init_requests(vec![1, 2]);
    assert_eq!(core.start(), vec![(0, 1), (1, 2)]);
    // Worker 0 reports nothing while worker 1 still holds task 2.
    assert_eq!(core.on_result(0, vec![]), vec![]);
    assert_eq!(core.tasks_out(), 1);
    // What task 2 produced is still handed out, and the idle worker 0 is fed again.
    assert_eq!(core.on_result(1, vec![7, 8, 9]), vec![(0, 7), (1, 8)]);
    assert_eq!(core.on_result(1, vec![]), vec![(1, 9)]);
    assert_eq!(core.on_result(0, vec![]), vec![]);
    assert_eq!(core.on_result(1, vec![]), vec![]);
    assert_eq!(core.tasks_out(), 0);
}

#[test]
fn engine_start_with_fewer_tasks_than_workers() {
    let mut core = EngineCore::new(4);
    core.init_requests(vec!["a"]);
    core.init_requests(vec!["b"]);
    assert_eq!(core.start(), vec![(0, "a"), (1, "b")]);
    assert_eq!(core.send_one(2), EngineAction::Wait);
    assert_eq!(core.tasks_out(), 2);
    core.init_requests(vec!["c"]);
    assert_eq!(core.send_one(3), EngineAction::Dispatch { worker_id: 3, task: "c" });
    assert!(core.is_busy(3));
}

#[test]
fn engine_with_nothing_scheduled_has_nothing_out() {
    let mut core: EngineCore<u8> = EngineCore::new(3);
    assert!(core.start().is_empty());
    assert_eq!(core.tasks_out(), 0);
    assert_eq!(core.send_one(0), EngineAction::Shutdown);
}

#[test]
fn engine_without_workers_sends_nothing() {
    let mut core = EngineCore::new(0);
    core.init_requests(vec![1u8]);
    assert!(core.start().is_empty());
    assert_eq!(core.tasks_out(), 0);
}
#[test]
fn response_chain_splits_over_two_middleware_lists() {
    let whole = RefCell::new(vec![fixed(Answer::Pass), fixed(Answer::Redirect("http://mid.org/")), fixed(Answer::Respond("http://end.org/"))]);
    let all = run_response_chain(&whole, &content("http://c.org/"), response("http://a.org/", b"x"));
    let first = RefCell::new(vec![fixed(Answer::Pass)]);
    let rest = RefCell::new(vec![fixed(Answer::Redirect("http://mid.org/")), fixed(Answer::Respond("http://end.org/"))]);
    let split = match run_response_chain(&first, &content("http://c.org/"), response("http://a.org/", b"x")) {
        IntermediateProcessResult::Response(r) => run_response_chain(&rest, &content("http://c.org/"), r),
        other => other,
    };
    match (all, split) {
        (IntermediateProcessResult::Response(a), IntermediateProcessResult::Response(b)) => {
            assert_eq!(a.url.as_str(), "http://end.org/");
            assert_eq!(a.url, b.url);
            assert_eq!(a.body, b.body);
        },
        _ => panic!("expected responses"),
    }
}

#[test]
fn every_answer_continue_drops_the_request() {
    let mws = RefCell::new(vec![fixed(Answer::Pass), fixed(Answer::Pass), fixed(Answer::Pass)]);
    let e = DownloadError::BadRequest(hyper::Error::Status);
    assert!(matches!(run_exception_chain(&mws, &content("http://a.org/"), e), IntermediateProcessResult::Ignore));
    assert_eq!(seen(&mws, |m| m.exceptions_seen), vec![1, 1, 1]);
    assert_eq!(seen(&mws, |m| m.responses_seen), vec![0, 0, 0]);
}

#[test]
fn crawler_tasks_tag_each_start_request_with_its_crawler() {
    let crawlers = vec!["a", "b", "c"];
    let calls = RefCell::new(vec![]);
    let start = |c: &&str| {
        calls.borrow_mut().push(c.to_string());
        match *c {
            "a" => vec![request("http://a.org/1"), request("http://a.org/2")],
            "b" => vec![],
            _ => vec![request("http://c.org/1")],
        }
    };
    let tasks = crawler_tasks(&crawlers, &start);
    let tagged: Vec<(&str, String)> = tasks.iter().map(|t| (t.crawler, t.request.content.url.as_str().to_owned())).collect();
    assert_eq!(
        tagged,
        vec![("a", "http://a.org/1".to_owned()), ("a", "http://a.org/2".to_owned()), ("c", "http://c.org/1".to_owned())]
    );
    assert_eq!(*calls.borrow(), vec!["a", "b", "c"]);
    let mut core = EngineCore::new(1);
    core.init_requests(tasks);
    assert_eq!(core.tasks_out(), 0);
}

#[test]
fn engine_feeds_a_worker_that_holds_a_task_again() {
    let mut core = EngineCore::new(1);
    core.init_requests(vec![1, 2]);
    assert_eq!(core.send_one(0), EngineAction::Dispatch { worker_id: 0, task: 1 });
    assert_eq!(core.send_one(0), EngineAction::Dispatch { worker_id: 0, task: 2 });
    assert_eq!(core.tasks_out(), 1);
    assert_eq!(core.send_one(0), EngineAction::Wait);
}
