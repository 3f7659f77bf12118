use accept_encoding::AcceptEncoding;
use accept_encoding::Encoding;
use accept_encoding::HeaderName;
use accept_encoding::HeaderValue;
use accept_encoding::Headers;
use accept_encoding::Quality;

fn name() -> HeaderName {
    HeaderName::new("accept-encoding".to_owned())
}

fn header_with_lines(lines: &[&str]) -> Headers {
    let mut headers = Headers::new();
    for line in lines {
        headers.append(name(), HeaderValue::new((*line).to_owned()).unwrap());
    }
    headers
}

fn parse_lines(lines: &[&str]) -> AcceptEncoding {
    let headers = header_with_lines(lines);
    AcceptEncoding::from_headers(&headers).unwrap().unwrap()
}

fn encodings(accept: &AcceptEncoding) -> Vec<Encoding> {
    let mut out = Vec::new();
    let mut iter = accept.iter();
    while let Some(prop) = iter.next() {
        out.push(prop.encoding.clone());
    }
    out
}

#[test]
fn absent_header_is_none() {
    let headers = Headers::new();
    assert!(AcceptEncoding::from_headers(&headers).unwrap().is_none());
}

#[test]
fn empty_value_is_empty_list() {
    let accept = parse_lines(&[""]);
    assert!(!accept.wildcard());
    assert_eq!(encodings(&accept).len(), 0);
}

#[test]
fn whitespace_value_is_empty_list() {
    let accept = parse_lines(&["   "]);
    assert!(!accept.wildcard());
    assert_eq!(encodings(&accept).len(), 0);
}

#[test]
fn lone_wildcard() {
    let accept = parse_lines(&["*"]);
    assert!(accept.wildcard());
    assert_eq!(encodings(&accept).len(), 0);
}

#[test]
fn wildcard_after_entry() {
    let accept = parse_lines(&["gzip,*"]);
    assert!(accept.wildcard());
    assert_eq!(encodings(&accept), vec![Encoding::Gzip]);
}

#[test]
fn unknown_directive_dropped() {
    let accept = parse_lines(&["gzip, bogus-token;weird=1, br"]);
    assert!(!accept.wildcard());
    assert_eq!(encodings(&accept), vec![Encoding::Gzip, Encoding::Br]);
}

#[test]
fn unknown_but_valid_token_kept() {
    let accept = parse_lines(&["gzip, custom-enc"]);
    assert_eq!(
        encodings(&accept),
        vec![Encoding::Gzip, Encoding::Other("custom-enc".to_owned())]
    );
}

#[test]
fn multiple_lines_concatenate() {
    let accept = parse_lines(&["gzip", "br;q=0.8"]);
    assert_eq!(encodings(&accept), vec![Encoding::Gzip, Encoding::Br]);
    let mut iter = accept.iter();
    assert_eq!(iter.next().unwrap().weight, None);
    assert_eq!(
        iter.next().unwrap().weight,
        Some(Quality::new(800).unwrap())
    );
}

#[test]
fn names_match_case_insensitively() {
    let accept = parse_lines(&["GZip, DEFLATE, Identity, Compress, BR"]);
    assert_eq!(
        encodings(&accept),
        vec![
            Encoding::Gzip,
            Encoding::Deflate,
            Encoding::Identity,
            Encoding::Compress,
            Encoding::Br,
        ]
    );
}

#[test]
fn empty_pieces_and_whitespace_skipped() {
    let accept = parse_lines(&[" gzip ,, br , "]);
    assert_eq!(encodings(&accept), vec![Encoding::Gzip, Encoding::Br]);
}

#[test]
fn weight_parses_with_spaces_around_equals() {
    let accept = parse_lines(&["gzip; q = 0.5"]);
    let mut iter = accept.iter();
    assert_eq!(
        iter.next().unwrap().weight,
        Some(Quality::new(500).unwrap())
    );
}

#[test]
fn out_of_range_weight_drops_directive() {
    let accept = parse_lines(&["gzip;q=1.5, br"]);
    assert_eq!(encodings(&accept), vec![Encoding::Br]);
}

#[test]
fn malformed_weight_drops_directive() {
    let accept = parse_lines(&["gzip;q=abc, deflate;p=1, br;q=0.1234, identity;q=, br"]);
    assert_eq!(encodings(&accept), vec![Encoding::Br]);
}

#[test]
fn wildcard_with_weight_is_dropped() {
    let accept = parse_lines(&["*;q=0.3, gzip"]);
    assert!(!accept.wildcard());
    assert_eq!(encodings(&accept), vec![Encoding::Gzip]);
}

#[test]
fn repeated_wildcards_collapse() {
    let accept = parse_lines(&["*, gzip, *"]);
    assert!(accept.wildcard());
    assert_eq!(encodings(&accept), vec![Encoding::Gzip]);
}

#[test]
fn weight_without_fraction() {
    let accept = parse_lines(&["br;q=1, gzip;q=0"]);
    let mut iter = accept.iter();
    assert_eq!(
        iter.next().unwrap().weight,
        Some(Quality::new(1000).unwrap())
    );
    assert_eq!(iter.next().unwrap().weight, Some(Quality::new(0).unwrap()));
}

#[test]
fn three_fractional_digits() {
    let accept = parse_lines(&["gzip;q=0.125"]);
    let mut iter = accept.iter();
    assert_eq!(
        iter.next().unwrap().weight,
        Some(Quality::new(125).unwrap())
    );
}
