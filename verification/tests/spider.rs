use std::sync::Mutex;

use scrupy::downloader::{Method, Request, Response};
use scrupy::spider::{requests_from_parsed, requests_from_urls, Spider};
use url::Url;

struct LittleSpider {
    domains: Vec<String>,
    logged: Mutex<Vec<String>>,
}

impl LittleSpider {
    fn new(domains: Vec<String>) -> LittleSpider {
        LittleSpider { domains, logged: Mutex::new(vec![]) }
    }
}

impl Spider for LittleSpider {
    type ItemType = ();
    fn name(&self) -> &str {
        "Little Spider"
    }
    fn allowed_domains(&self) -> &[String] {
        self.domains.as_slice()
    }
    fn start_urls(&self) -> &[String] {
        self.domains.as_slice()
    }
    fn log(&self, _str: &str) {
        self.logged.lock().unwrap().push(_str.to_owned());
    }
    fn parse(&self, _response: Response) -> (Vec<Request>, Vec<()>) {
        (vec![], vec![])
    }
}

#[test]
fn spider_name() {
    let spider = LittleSpider::new(vec!["google.com".to_owned(), "shanghaitech.edu.cn".to_owned()]);
    let b = spider.name();
    assert_eq!(b, "Little Spider");
}

#[test]
fn spider_domains() {
    let spider = LittleSpider::new(vec!["google.com".to_owned(), "shanghaitech.edu.cn".to_owned()]);
    let b = spider.allowed_domains();
    assert_eq!(b, vec!["google.com".to_owned(), "shanghaitech.edu.cn".to_owned()].as_slice());
}

#[test]
fn start_requests_skips_and_logs_urls_without_scheme() {
    let spider = LittleSpider::new(vec!["google.com".to_owned(), "shanghaitech.edu.cn".to_owned()]);
    let requests = spider.start_requests();
    assert_eq!(requests.len(), 0);
    let logged = spider.logged.lock().unwrap();
    assert_eq!(logged.len(), 2);
    assert_eq!(logged[0], "relative URL without a base");
    assert_eq!(logged[1], "relative URL without a base");
}

#[test]
fn start_requests_are_plain_gets_in_order() {
    let spider = LittleSpider::new(vec![
        "http://example.com".to_owned(),
        "not a url".to_owned(),
        "https://www.rust-lang.org/learn?x=1".to_owned(),
    ]);
    let requests = spider.start_requests();
    assert_eq!(requests.len(), 2);
    assert_eq!(requests[0].content.url.as_str(), "http://example.com/");
    assert_eq!(requests[1].content.url.as_str(), "https://www.rust-lang.org/learn?x=1");
    for r in &requests {
        assert_eq!(r.content.method, Method::Get);
        assert!(r.content.body.is_none());
    }
    let logged = spider.logged.lock().unwrap();
    assert_eq!(logged.len(), 1);
    assert_eq!(logged[0], "relative URL without a base");
}

#[test]
fn requests_from_urls_reports_each_parse_error() {
    let urls = vec!["http://[::1".to_owned(), "ftp://files.example.org/a b".to_owned(), "".to_owned()];
    let (requests, errors) = requests_from_urls(&urls);
    assert_eq!(requests.len(), 1);
    assert_eq!(requests[0].content.url.as_str(), "ftp://files.example.org/a%20b");
    assert_eq!(errors, vec!["invalid IPv6 address".to_owned(), "relative URL without a base".to_owned()]);
}

#[test]
fn requests_from_no_urls() {
    let (requests, errors) = requests_from_urls(&[]);
    assert!(requests.is_empty());
    assert!(errors.is_empty());
}

#[test]
fn requests_from_given_parse_results() {
    let results = vec![
        Err("empty host".to_owned()),
        Ok(Url::parse("http://a.org/x").unwrap()),
        Ok(Url::parse("https://b.org/").unwrap()),
        Err("invalid port number".to_owned()),
    ];
    let (requests, errors) = requests_from_parsed(results);
    assert_eq!(requests.len(), 2);
    assert_eq!(requests[0].content.url.as_str(), "http://a.org/x");
    assert_eq!(requests[1].content.url.as_str(), "https://b.org/");
    assert!(requests.iter().all(|r| r.content.method == Method::Get && r.content.body.is_none()));
    assert_eq!(errors, vec!["empty host".to_owned(), "invalid port number".to_owned()]);
}

/// A spider that keeps the default `log`, which prints to `stdout`.
struct PlainSpider {
    urls: Vec<String>,
}

impl Spider for PlainSpider {
    type ItemType = ();
    fn name(&self) -> &str {
        "Plain Spider"
    }
    fn allowed_domains(&self) -> &[String] {
        &[]
    }
    fn start_urls(&self) -> &[String] {
        self.urls.as_slice()
    }
    fn parse(&self, _response: Response) -> (Vec<Request>, Vec<()>) {
        (vec![], vec![])
    }
}

#[test]
fn default_log_prints_and_start_requests_go_on() {
    let spider = PlainSpider { urls: vec!["not a url".to_owned(), "http://example.org/".to_owned()] };
    spider.log("a line from the spider");
    let requests = spider.start_requests();
    assert_eq!(requests.len(), 1);
    assert_eq!(requests[0].content.url.as_str(), "http://example.org/");
}
