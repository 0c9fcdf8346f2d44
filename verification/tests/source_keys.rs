use tf_df::simplify_source;

#[test]
fn key_of_url_with_scheme_www_port_and_slash() {
    assert_eq!(simplify_source("https://www.example.com:8080/"), "example.com");
}

#[test]
fn key_of_subdomain() {
    assert_eq!(simplify_source("sub.example.com"), "example.com");
}

#[test]
fn key_keeps_three_labels_after_short_second_to_last() {
    assert_eq!(simplify_source("news.example.org.np"), "example.org.np");
}

#[test]
fn key_of_empty_label_is_empty() {
    assert_eq!(simplify_source(""), "");
}

#[test]
fn key_of_www_alone_is_empty() {
    assert_eq!(simplify_source("www"), "");
    assert_eq!(simplify_source("http://www/"), "");
}

#[test]
fn key_strips_http_scheme() {
    assert_eq!(simplify_source("http://example.com"), "example.com");
}

#[test]
fn key_strips_only_one_trailing_slash() {
    assert_eq!(simplify_source("example.com//"), "example.com/");
}

#[test]
fn key_strips_the_port_of_every_segment() {
    assert_eq!(simplify_source("a:1.bb:2.cccc:3.dddd:4"), "cccc.dddd");
    assert_eq!(simplify_source("www:80.example.com"), "example.com");
}

#[test]
fn key_keeps_empty_labels() {
    // The empty label between the dots is the last but one, and it is short.
    assert_eq!(simplify_source("example..com"), "example..com");
    assert_eq!(simplify_source("deep.example..com"), "example..com");
    assert_eq!(simplify_source(".example.com"), "example.com");
    assert_eq!(simplify_source("a.b.co."), "b.co.");
}

#[test]
fn key_counts_codepoints_of_the_second_to_last_label() {
    // Three Devanagari codepoints are nine bytes and still a short label.
    assert_eq!(simplify_source("x.y.\u{0915}\u{0916}\u{0917}.np"), "y.\u{0915}\u{0916}\u{0917}.np");
    assert_eq!(simplify_source("x.y.abcd.np"), "abcd.np");
}

#[test]
fn key_of_single_label() {
    assert_eq!(simplify_source("localhost"), "localhost");
    assert_eq!(simplify_source("https://localhost:3000/"), "localhost");
}

#[test]
fn key_is_stable_under_renormalisation_of_plain_hosts() {
    let once = simplify_source("https://www.news.example.com/");
    assert_eq!(simplify_source(&once), once);
}
