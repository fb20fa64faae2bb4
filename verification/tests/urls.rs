use minihttp::url::{parse_url, UrlParsingError};

#[test]
fn url_test() {
    let url = parse_url("http://localhost").unwrap();
    assert_eq!(url, ("http", "localhost", 80, "/"));

    let url = parse_url("http://example.com/").unwrap();
    assert_eq!(url, ("http", "example.com", 80, "/"));

    let url = parse_url("http://example.com/path/to/file.html").unwrap();
    assert_eq!(url, ("http", "example.com", 80, "/path/to/file.html"));

    let url = parse_url("https://localhost").unwrap();
    assert_eq!(url, ("https", "localhost", 443, "/"));

    let url = parse_url("http://localhost:8080").unwrap();
    assert_eq!(url, ("http", "localhost", 8080, "/"));

    let url = parse_url("http://localhost:8080/").unwrap();
    assert_eq!(url, ("http", "localhost", 8080, "/"));

    let url = parse_url("http://localhost:8080/index.html").unwrap();
    assert_eq!(url, ("http", "localhost", 8080, "/index.html"));

    let url = parse_url("http://localhost:8080/index.html#hash").unwrap();
    assert_eq!(url, ("http", "localhost", 8080, "/index.html"));

    let url = parse_url("http://localhost:8000/path/to/index.html?foo=bar").unwrap();
    assert_eq!(url, ("http", "localhost", 8000, "/path/to/index.html?foo=bar"));

    let url = parse_url("http://api.bewrosnes.org/v1.0/Datastreams").unwrap();
    assert_eq!(url, ("http", "api.bewrosnes.org", 80, "/v1.0/Datastreams"));
}

#[test]
fn url_datastreams_example() {
    let url = parse_url("http://api.example.org/v1.0/Datastreams").unwrap();
    assert_eq!(url, ("http", "api.example.org", 80, "/v1.0/Datastreams"));
}

#[test]
fn url_other_scheme_defaults_to_port_zero() {
    let url = parse_url("ftp://example.com/file").unwrap();
    assert_eq!(url, ("ftp", "example.com", 0, "/file"));
}

#[test]
fn url_missing_scheme_delimiter() {
    let res = parse_url("no-scheme-here");
    assert_eq!(res.err().unwrap(), UrlParsingError::DelimiterNotFound);
}

#[test]
fn url_missing_slashes() {
    let res = parse_url("http:hostonly");
    assert_eq!(res.err().unwrap(), UrlParsingError::DelimiterNotFound);
}

#[test]
fn url_bad_port() {
    let res = parse_url("http://example.com:eighty/path");
    assert_eq!(res.err().unwrap(), UrlParsingError::ParseIntError);

    let res = parse_url("http://example.com:99999");
    assert_eq!(res.err().unwrap(), UrlParsingError::ParseIntError);
}

#[test]
fn url_fragment_stripped_without_port() {
    let url = parse_url("https://example.com/page#section").unwrap();
    assert_eq!(url, ("https", "example.com", 443, "/page"));
}
