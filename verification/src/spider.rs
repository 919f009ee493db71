//! Spider module
use vstd::prelude::*;
use std::io::Write;
use crate::downloader::{Method, Request, RequestContent, Response};

verus! {

/// What `url::Url::parse` makes of a string: the URL, or the text of the
/// parse error as `Display` writes it.
pub uninterp spec fn url_parse(s: Seq<char>) -> Result<url::Url, Seq<char>>;

/// `writeln!` to `std::io::stdout()`: prints `line` and a line break to the
/// standard output. A failed write is ignored; nothing is stated of it.
#[verifier::external_body]
fn print_line(line: &str) {
    let mut out = std::io::stdout();
    let _ = writeln!(out, "{}", line);
}

/// A parse result with its error text taken as a sequence of characters.
pub open spec fn parse_result_view(r: Result<url::Url, String>) -> Result<url::Url, Seq<char>> {
    match r {
        Ok(u) => Ok(u),
        Err(m) => Err(m@),
    }
}

/// `url::Url::parse`: the result is `url_parse` of the string; a parse error
/// is given as the text that its `Display` writes.
#[verifier::external_body]
fn parse_url(s: &str) -> (res: Result<url::Url, String>)
    ensures
        parse_result_view(res) == url_parse(s@),
{
    match url::Url::parse(s) {
        Ok(u) => Ok(u),
        Err(e) => Err(format!("{}", e)),
    }
}

/// `hyper::Client::new`: a fresh client with the default configuration.
#[verifier::external_body]
fn new_client() -> hyper::Client {
    hyper::Client::new()
}

/// The texts of a sequence of strings.
pub open spec fn texts(strings: Seq<String>) -> Seq<Seq<char>> {
    strings.map_values(|s: String| s@)
}

/// What `url_parse` makes of each text.
pub open spec fn parsed_texts(urls: Seq<Seq<char>>) -> Seq<Result<url::Url, Seq<char>>> {
    urls.map_values(|u: Seq<char>| url_parse(u))
}

/// Parse results with their error texts taken as sequences of characters.
pub open spec fn parse_results_view(results: Seq<Result<url::Url, String>>) -> Seq<Result<url::Url, Seq<char>>> {
    results.map_values(|r: Result<url::Url, String>| parse_result_view(r))
}

/// The URLs of the parse results that succeeded, in order.
pub open spec fn ok_urls(results: Seq<Result<url::Url, Seq<char>>>) -> Seq<url::Url>
    decreases results.len(),
{
    if results.len() == 0 {
        Seq::empty()
    } else {
        match results.last() {
            Ok(u) => ok_urls(results.drop_last()).push(u),
            Err(_) => ok_urls(results.drop_last()),
        }
    }
}

/// The error texts of the parse results that failed, in order.
pub open spec fn error_texts(results: Seq<Result<url::Url, Seq<char>>>) -> Seq<Seq<char>>
    decreases results.len(),
{
    if results.len() == 0 {
        Seq::empty()
    } else {
        match results.last() {
            Ok(_) => error_texts(results.drop_last()),
            Err(m) => error_texts(results.drop_last()).push(m),
        }
    }
}

/// The URLs that the start urls parse to, in order; those that do not parse are left out.
pub open spec fn start_request_urls(urls: Seq<Seq<char>>) -> Seq<url::Url> {
    ok_urls(parsed_texts(urls))
}

/// The error texts of the start urls that do not parse, in order.
pub open spec fn start_url_errors(urls: Seq<Seq<char>>) -> Seq<Seq<char>> {
    error_texts(parsed_texts(urls))
}

/// A plain GET request for `url`, without a body.
pub open spec fn is_get_request_for(r: Request, url: url::Url) -> bool {
    &&& r.content.url == url
    &&& r.content.method == Method::Get
    &&& r.content.body is None
}

/// `requests` are what the start urls `urls` give: one plain GET request for
/// each url that parses, for the URL it parses to, in order.
pub open spec fn are_start_requests(requests: Seq<Request>, urls: Seq<String>) -> bool {
    &&& requests.len() == start_request_urls(texts(urls)).len()
    &&& forall|i: int|
        0 <= i < requests.len() ==> is_get_request_for(
            #[trigger] requests[i],
            start_request_urls(texts(urls))[i],
        )
}

/// Each parse result that succeeds gives its URL, and each that fails its
/// error text, in order, whatever the other results: the URLs (and the error
/// texts) of two runs of results one after the other are those of the first
/// run followed by those of the second; a single success gives its URL and
/// no error text, a single failure its text and no URL; there are as many
/// URLs as successes and as many texts as failures; and when every result
/// succeeds, the `i`-th URL is that of the `i`-th result.
pub proof fn lemma_parse_results_split(
    a: Seq<Result<url::Url, Seq<char>>>,
    b: Seq<Result<url::Url, Seq<char>>>,
    u: url::Url,
    m: Seq<char>,
)
    ensures
        ok_urls(a + b) == ok_urls(a) + ok_urls(b),
        error_texts(a + b) == error_texts(a) + error_texts(b),
        ok_urls(seq![Ok(u)]) == seq![u],
        error_texts(seq![Ok::<url::Url, Seq<char>>(u)]) == Seq::<Seq<char>>::empty(),
        ok_urls(seq![Err::<url::Url, Seq<char>>(m)]) == Seq::<url::Url>::empty(),
        error_texts(seq![Err::<url::Url, Seq<char>>(m)]) == seq![m],
        ok_urls(a).len() + error_texts(a).len() == a.len(),
        ok_urls(a).len() == a.filter(|r: Result<url::Url, Seq<char>>| r is Ok).len(),
        (forall|i: int| 0 <= i < a.len() ==> (#[trigger] a[i]) is Ok) ==> ok_urls(a).len() == a.len() && forall|i: int|
            0 <= i < a.len() ==> ok_urls(a)[i] == (#[trigger] a[i])->Ok_0,
    decreases b.len(), a.len(),
{
    lemma_parse_results_count(a);
    if b.len() == 0 {
        assert(a + b == a);
    } else {
        lemma_parse_results_split(a, b.drop_last(), u, m);
        assert((a + b).drop_last() == a + b.drop_last());
        assert((a + b).last() == b.last());
    }
    let one_ok = seq![Ok::<url::Url, Seq<char>>(u)];
    let one_err = seq![Err::<url::Url, Seq<char>>(m)];
    assert(one_ok.drop_last() == Seq::<Result<url::Url, Seq<char>>>::empty());
    assert(one_err.drop_last() == Seq::<Result<url::Url, Seq<char>>>::empty());
    assert(one_ok.last() == Ok::<url::Url, Seq<char>>(u));
    assert(one_err.last() == Err::<url::Url, Seq<char>>(m));
    assert(ok_urls(one_ok.drop_last()) == Seq::<url::Url>::empty());
    assert(error_texts(one_err.drop_last()) == Seq::<Seq<char>>::empty());
    assert(ok_urls(one_ok) == seq![u]);
    assert(error_texts(one_err) == seq![m]);
}

proof fn lemma_parse_results_count(a: Seq<Result<url::Url, Seq<char>>>)
    ensures
        ok_urls(a).len() + error_texts(a).len() == a.len(),
        ok_urls(a).len() == a.filter(|r: Result<url::Url, Seq<char>>| r is Ok).len(),
        (forall|i: int| 0 <= i < a.len() ==> (#[trigger] a[i]) is Ok) ==> ok_urls(a).len() == a.len() && forall|i: int|
            0 <= i < a.len() ==> ok_urls(a)[i] == (#[trigger] a[i])->Ok_0,
    decreases a.len(),
{
    reveal(Seq::filter);
    if a.len() > 0 {
        lemma_parse_results_count(a.drop_last());
        assert(forall|i: int| 0 <= i < a.len() - 1 ==> a.drop_last()[i] == a[i]);
    }
}

/// Each start url is parsed on its own, in order, and a parse error keeps
/// its text; a start request for a URL is a GET for that URL, without a
/// body.
pub proof fn lemma_start_urls_parsed_one_by_one(
    urls: Seq<String>,
    results: Seq<Result<url::Url, String>>,
    r: Request,
    u: url::Url,
)
    ensures
        parsed_texts(texts(urls)).len() == urls.len(),
        forall|i: int| 0 <= i < urls.len() ==> #[trigger] parsed_texts(texts(urls))[i] == url_parse(urls[i]@),
        parse_results_view(results).len() == results.len(),
        forall|i: int|
            0 <= i < results.len() ==> #[trigger] parse_results_view(results)[i] == match results[i] {
                Ok(v) => Ok(v),
                Err(m) => Err(m@),
            },
        is_get_request_for(r, u) <==> r.content == (RequestContent { url: u, method: Method::Get, body: None }),
{
}

/// When every start url parses, the start requests are one GET request per
/// url, in order, each for the URL its url parses to.
pub proof fn lemma_all_start_urls_parse(requests: Seq<Request>, urls: Seq<String>)
    requires
        forall|i: int| 0 <= i < urls.len() ==> ((#[trigger] url_parse(urls[i]@)) is Ok),
    ensures
        are_start_requests(requests, urls) <==> requests.len() == urls.len() && forall|i: int|
            0 <= i < urls.len() ==> is_get_request_for(#[trigger] requests[i], url_parse(urls[i]@)->Ok_0),
{
    let p = parsed_texts(texts(urls));
    assert forall|i: int| 0 <= i < p.len() implies (#[trigger] p[i]) is Ok by {
        assert(p[i] == url_parse(urls[i]@));
    }
    lemma_parse_results_count(p);
    assert forall|i: int| 0 <= i < urls.len() implies start_request_urls(texts(urls))[i] == url_parse(urls[i]@)->Ok_0 by {
        assert(p[i] == url_parse(urls[i]@));
    }
}

/// Turns parse results into GET requests without a body, one for each URL,
/// in order, each with a client of its own; the error texts come second, in
/// order.
pub fn requests_from_parsed(results: Vec<Result<url::Url, String>>) -> (res: (Vec<Request>, Vec<String>))
    ensures
        res.0@.len() == ok_urls(parse_results_view(results@)).len(),
        forall|i: int|
            0 <= i < res.0@.len() ==> is_get_request_for(
                #[trigger] res.0@[i],
                ok_urls(parse_results_view(results@))[i],
            ),
        texts(res.1@) == error_texts(parse_results_view(results@)),
{
    let ghost all = parse_results_view(results@);
    let mut results = results;
    let mut requests: Vec<Request> = Vec::new();
    let mut errors: Vec<String> = Vec::new();
    let n = results.len();
    let mut i: usize = 0;
    while i < n
        invariant
            i <= n,
            n == all.len(),
            parse_results_view(results@) == all.skip(i as int),
            results@.len() == n - i,
            requests@.len() == ok_urls(all.take(i as int)).len(),
            forall|j: int|
                0 <= j < requests@.len() ==> is_get_request_for(
                    #[trigger] requests@[j],
                    ok_urls(all.take(i as int))[j],
                ),
            texts(errors@) == error_texts(all.take(i as int)),
        decreases n - i,
    {
        assert(all.take(i + 1).drop_last() == all.take(i as int));
        assert(all.take(i + 1).last() == all[i as int]);
        assert(all.skip(i as int)[0] == all[i as int]);
        let ghost rest = results@;
        let result = results.remove(0);
        assert(parse_results_view(results@) == all.skip(i + 1)) by {
            assert(results@ == rest.drop_first());
            assert(parse_results_view(rest).drop_first() == all.skip(i + 1));
        }
        let ghost before = errors@;
        match result {
            Ok(url) => {
                requests.push(Request {
                    content: RequestContent { url, method: Method::Get, body: None },
                    client: new_client(),
                });
            },
            Err(message) => {
                errors.push(message);
                assert(texts(errors@) == texts(before).push(message@));
            },
        }
        i += 1;
    }
    assert(all.take(n as int) == all);
    (requests, errors)
}

/// Turns start urls into GET requests without a body, one for each url that
/// parses, in order, each with a client of its own; the error texts of the
/// urls that do not parse come second, in order.
pub fn requests_from_urls(urls: &[String]) -> (res: (Vec<Request>, Vec<String>))
    ensures
        res.0@.len() == start_request_urls(texts(urls@)).len(),
        forall|i: int|
            0 <= i < res.0@.len() ==> is_get_request_for(
                #[trigger] res.0@[i],
                start_request_urls(texts(urls@))[i],
            ),
        texts(res.1@) == start_url_errors(texts(urls@)),
{
    let mut parsed: Vec<Result<url::Url, String>> = Vec::new();
    let n = urls.len();
    for i in 0..n
        invariant
            n == urls@.len(),
            parse_results_view(parsed@) == parsed_texts(texts(urls@.take(i as int))),
    {
        let result = parse_url(urls[i].as_str());
        parsed.push(result);
        assert(parsed_texts(texts(urls@.take(i + 1))) == parsed_texts(texts(urls@.take(i as int))).push(url_parse(urls@[i as int]@)));
    }
    assert(urls@.take(n as int) == urls@);
    requests_from_parsed(parsed)
}

pub trait Spider: Send + Sync {
    type ItemType;

    /// Returns the name of the spider.
    fn name(&self) -> &str;

    /// Returns the allowed domains of the spider.
    fn allowed_domains(&self) -> &[String];

    /// Returns a set of urls for the spider to start with.
    fn start_urls(&self) -> &[String];

    /// Returns a set of start requests for the spider to start with. By default
    /// it calls start_urls() to get start urls and issues http get requests
    /// to those urls; each url that does not parse is logged instead.
    ///
    /// By default, the requests are those that the urls returned by this
    /// call of `start_urls()` give.
    fn start_requests(&self) -> (requests: Vec<Request>)
        default_ensures
            exists|urls: &[String]|
                #[trigger] call_ensures(Self::start_urls, (self,), urls) && are_start_requests(requests@, urls@),
    {
        let urls = self.start_urls();
        let (requests, errors) = requests_from_urls(urls);
        assert(are_start_requests(requests@, urls@));
        for i in 0..errors.len() {
            self.log(errors[i].as_str());
        }
        requests
    }

    /// Logging functions of the spider. By default it will print error to `stdout`.
    fn log(&self, _str: &str) {
        print_line(_str);
    }

    /// Parse the `Response` and get a set of new `Request`s and items.
    fn parse(&self, response: Response) -> (Vec<Request>, Vec<Self::ItemType>);
}

} // verus!
