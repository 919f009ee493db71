//! Requests, responses and the decisions a download makes.
//!
//! The network exchange itself (sending a request through a `hyper::Client`
//! and reading the body) is I/O and is driven from outside the library; what
//! the library decides at each point of that exchange is `download_step`.
use vstd::prelude::*;
use hyper::client::response::Response as HyperResponse;

verus! {

/// `url::Url`: a parsed URL, carried opaquely.
#[verifier::external_type_specification]
#[verifier::external_body]
pub struct ExUrl(url::Url);

/// `hyper::Client`: the HTTP client a request is sent with.
#[verifier::external_type_specification]
#[verifier::external_body]
pub struct ExClient(hyper::Client);

/// `hyper::header::Headers`: the headers of a response.
#[verifier::external_type_specification]
#[verifier::external_body]
pub struct ExHeaders(hyper::header::Headers);

/// `hyper::client::response::Response`: a response whose body has not been read.
#[verifier::external_type_specification]
#[verifier::external_body]
pub struct ExHyperResponse(HyperResponse);

/// `hyper::error::Error`: what can go wrong while sending a request.
#[verifier::external_type_specification]
#[verifier::external_body]
pub struct ExHyperError(hyper::error::Error);

/// `std::io::Error`: what can go wrong while reading a body.
#[verifier::external_type_specification]
#[verifier::external_body]
pub struct ExIoError(std::io::Error);

/// The status code of a successful HTTP exchange ("200 OK").
pub const HTTP_OK: u16 = 200;

/// Download error occured when issueing a request.
pub enum DownloadError {
    /// The status code is not Ok.
    BadStatus(HyperResponse),
    /// Special read error timeout.
    TimedOut(HyperResponse),
    /// Other read error except for timeout.
    ReadError(HyperResponse, std::io::Error),
    /// Errors that can occur parsing HTTP streams.
    BadRequest(hyper::error::Error),
}

/// The HTTP method of a request.
#[derive(Clone, Copy, Debug, PartialEq, Eq)]
pub enum Method {
    Get,
    Post,
}

/// A downloaded page.
pub struct Response {
    pub url: url::Url,
    pub headers: hyper::header::Headers,
    pub body: Vec<u8>,
}

/// What is requested: where, how, and with which body.
pub struct RequestContent {
    pub url: url::Url,
    pub method: Method,
    pub body: Option<String>,
}

/// A request together with the client that will send it.
pub struct Request {
    pub content: RequestContent,
    pub client: hyper::Client,
}

/// `url::Url::clone`: the clone is the same URL (`Url` derives `Clone`).
#[verifier::external_body]
fn clone_url(url: &url::Url) -> (res: url::Url)
    ensures
        res == *url,
{
    url.clone()
}

/// Whether a read error is a time-out: the kind of `error`, which the error
/// holds.
pub uninterp spec fn io_error_timed_out(error: std::io::Error) -> bool;

/// `std::io::Error::kind`: tells whether the kind of `error` is
/// `ErrorKind::TimedOut`; the answer is the named one, a function of the error.
#[verifier::external_body]
fn read_timed_out(error: &std::io::Error) -> (timed_out: bool)
    ensures
        timed_out == io_error_timed_out(*error),
{
    match error.kind() {
        std::io::ErrorKind::TimedOut => true,
        _ => false,
    }
}

impl Clone for RequestContent {
    fn clone(&self) -> (res: Self)
        ensures
            res == *self,
    {
        let body = match &self.body {
            Some(b) => Some(b.clone()),
            None => None,
        };
        RequestContent { url: clone_url(&self.url), method: self.method, body }
    }
}

/// How a request is to be sent: with which method, to which URL, and with
/// which body, if any.
pub struct SendPlan<'a> {
    /// `POST` when true, `GET` when false.
    pub post: bool,
    pub url: &'a url::Url,
    pub body: Option<&'a str>,
}

/// The plan for sending a request: its method, its URL, and its body when it
/// has one.
pub fn send_plan(content: &RequestContent) -> (plan: SendPlan<'_>)
    ensures
        plan.post == (content.method == Method::Post),
        *plan.url == content.url,
        plan.body is Some == content.body is Some,
        plan.body is Some ==> plan.body->0@ == content.body->0@,
{
    let post = match content.method {
        Method::Get => false,
        Method::Post => true,
    };
    let body = match &content.body {
        Some(b) => Some(b.as_str()),
        None => None,
    };
    SendPlan { post, url: &content.url, body }
}

/// What happened at the last point of a download.
pub enum DownloadEvent {
    /// The request was sent and the server answered with this status code.
    Sent { response: HyperResponse, status: u16 },
    /// The request could not be sent, or the answer could not be parsed.
    SendFailed(hyper::error::Error),
    /// The whole body was read; `url` and `headers` are those of the answer.
    BodyRead { url: url::Url, headers: hyper::header::Headers, body: Vec<u8> },
    /// Reading the body failed with `error`.
    ReadFailed { response: HyperResponse, error: std::io::Error },
}

/// What a download must do next.
pub enum DownloadAction {
    /// Read the body of this response to its end.
    ReadBody(HyperResponse),
    /// The download is over, with this result.
    Finish(Result<Response, DownloadError>),
}

/// The decision a download takes on each event: a body is read only after a
/// "200 OK"; any other status, a failed send or a failed read ends the download
/// with the matching error (a read that timed out with `TimedOut`, another
/// failed read with `ReadError`), and a complete read ends it with the page.
pub open spec fn download_decision(event: DownloadEvent) -> DownloadAction {
    match event {
        DownloadEvent::Sent { response, status } => if status == HTTP_OK {
            DownloadAction::ReadBody(response)
        } else {
            DownloadAction::Finish(Err(DownloadError::BadStatus(response)))
        },
        DownloadEvent::SendFailed(e) => DownloadAction::Finish(Err(DownloadError::BadRequest(e))),
        DownloadEvent::BodyRead { url, headers, body } => DownloadAction::Finish(
            Ok(Response { url, headers, body }),
        ),
        DownloadEvent::ReadFailed { response, error } => if io_error_timed_out(error) {
            DownloadAction::Finish(Err(DownloadError::TimedOut(response)))
        } else {
            DownloadAction::Finish(Err(DownloadError::ReadError(response, error)))
        },
    }
}

/// A body is read exactly after a "200 OK", and each other event ends the
/// download with its own result: any other status with `BadStatus` and that
/// response, a failed send with `BadRequest`, a failed read with `TimedOut`
/// when it timed out and else with `ReadError`, a complete read with the page
/// made of the answer's URL, headers and body.
pub proof fn lemma_download_reads_only_after_ok(event: DownloadEvent)
    ensures
        download_decision(event) is ReadBody <==> (event is Sent && event->status == 200),
        match event {
            DownloadEvent::Sent { response, status } => if status == 200 {
                download_decision(event) == DownloadAction::ReadBody(response)
            } else {
                download_decision(event) == DownloadAction::Finish(Err(DownloadError::BadStatus(response)))
            },
            DownloadEvent::SendFailed(e) => download_decision(event) == DownloadAction::Finish(
                Err(DownloadError::BadRequest(e)),
            ),
            DownloadEvent::BodyRead { url, headers, body } => download_decision(event) == DownloadAction::Finish(
                Ok(Response { url, headers, body }),
            ),
            DownloadEvent::ReadFailed { response, error } => if io_error_timed_out(error) {
                download_decision(event) == DownloadAction::Finish(Err(DownloadError::TimedOut(response)))
            } else {
                download_decision(event) == DownloadAction::Finish(Err(DownloadError::ReadError(response, error)))
            },
        },
{
}

/// Takes the download's next decision.
pub fn download_step(event: DownloadEvent) -> (action: DownloadAction)
    ensures
        action == download_decision(event),
{
    match event {
        DownloadEvent::Sent { response, status } => {
            if status == HTTP_OK {
                DownloadAction::ReadBody(response)
            } else {
                DownloadAction::Finish(Err(DownloadError::BadStatus(response)))
            }
        },
        DownloadEvent::SendFailed(e) => DownloadAction::Finish(Err(DownloadError::BadRequest(e))),
        DownloadEvent::BodyRead { url, headers, body } => DownloadAction::Finish(
            Ok(Response { url, headers, body }),
        ),
        DownloadEvent::ReadFailed { response, error } => {
            if read_timed_out(&error) {
                DownloadAction::Finish(Err(DownloadError::TimedOut(response)))
            } else {
                DownloadAction::Finish(Err(DownloadError::ReadError(response, error)))
            }
        },
    }
}

} // verus!
