use std::collections::HashMap;

use oba::fetcher::{classify_failure, combine, Fetcher, HttpClient, HttpError};

struct MockClient {
    responses: HashMap<String, Result<String, HttpError>>,
}

impl MockClient {
    fn new() -> Self {
        Self {
            responses: HashMap::new(),
        }
    }

    fn add_response(&mut self, url: &str, response: &str) {
        self.responses
            .insert(url.to_string(), Ok(response.to_string()));
    }

    fn add_error(&mut self, url: &str, error: HttpError) {
        self.responses.insert(url.to_string(), Err(error));
    }
}

impl HttpClient for MockClient {
    fn get_text(&self, url: &str) -> Result<String, HttpError> {
        self.responses.get(url).cloned().unwrap()
    }
}

#[test]
fn fetcher_retrieves_texts_from_urls() {
    let mut client = MockClient::new();
    client.add_response("example.com", "0.0.0.0 ads.com\n");
    client.add_response("other.com", "0.0.0.0 ads.com\n");

    let urls = vec!["example.com".to_string(), "other.com".to_string()];

    let mut adlists = String::new();
    Fetcher { client }.fetch(&urls, &mut adlists);

    assert_eq!("0.0.0.0 ads.com\n0.0.0.0 ads.com\n", adlists.as_str());
}

#[test]
fn fetcher_should_ignore_errors() {
    let mut client = MockClient::new();
    client.add_response("example.com", "0.0.0.0 ads.com\n");
    client.add_error("other.com", HttpError::Unknown("other.com".to_string()));

    let urls = vec!["example.com".to_string(), "other.com".to_string()];

    let mut adlists = String::new();
    Fetcher { client }.fetch(&urls, &mut adlists);

    assert_eq!("0.0.0.0 ads.com\n", adlists.as_str());
}

#[test]
fn connection_failure_contributes_nothing() {
    let mut client = MockClient::new();
    client.add_response("a.example", "0.0.0.0 a.com\n");
    client.add_error("b.example", HttpError::Connection("b.example".to_string()));
    let urls = vec!["a.example".to_string(), "b.example".to_string()];
    let mut text = String::new();
    Fetcher { client }.fetch(&urls, &mut text);
    assert_eq!(text, "0.0.0.0 a.com\n");
}

#[test]
fn combine_skips_failures_in_any_position() {
    let results = vec![
        Err(HttpError::Timeout("x".to_string())),
        Ok("0.0.0.0 a.com\n".to_string()),
        Err(HttpError::Status("404 Not Found".to_string())),
        Ok("0.0.0.0 b.com\n".to_string()),
    ];
    let mut text = String::from("head\n");
    combine(&results, &mut text);
    assert_eq!(text, "head\n0.0.0.0 a.com\n0.0.0.0 b.com\n");
}

#[test]
fn combine_of_only_failures_is_empty() {
    let results = vec![
        Err(HttpError::Connection("a".to_string())),
        Err(HttpError::Unknown("b".to_string())),
    ];
    let mut text = String::new();
    combine(&results, &mut text);
    assert_eq!(text, "");
}

#[test]
fn failures_are_classified_in_order() {
    assert!(matches!(
        classify_failure("u", true, true, Some("500".to_string())),
        HttpError::Timeout(u) if u == "u"
    ));
    assert!(matches!(
        classify_failure("u", false, true, Some("500".to_string())),
        HttpError::Connection(u) if u == "u"
    ));
    assert!(matches!(
        classify_failure("u", false, false, Some("500".to_string())),
        HttpError::Status(c) if c == "500"
    ));
    assert!(matches!(
        classify_failure("u", false, false, None),
        HttpError::Unknown(u) if u == "u"
    ));
}

#[test]
fn error_messages_name_the_source() {
    assert_eq!(
        HttpError::Timeout("a.org".to_string()).message(),
        "A timeout occurred when requesting a.org"
    );
    assert_eq!(
        HttpError::Connection("a.org".to_string()).message(),
        "Unable to connect to a.org"
    );
    assert_eq!(
        HttpError::Status("503".to_string()).message(),
        "Received http error with status code 503"
    );
    assert_eq!(
        HttpError::Unknown("a.org".to_string()).message(),
        "Unknown error occurred while requesting a.org"
    );
}
