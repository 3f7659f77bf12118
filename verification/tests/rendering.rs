use accept_encoding::AcceptEncoding;
use accept_encoding::Encoding;
use accept_encoding::EncodingProposal;
use accept_encoding::HeaderName;
use accept_encoding::HeaderValue;
use accept_encoding::Headers;
use accept_encoding::Quality;

fn with_lines(lines: &[&str]) -> AcceptEncoding {
    let mut headers = Headers::new();
    for line in lines {
        headers.append(
            HeaderName::new("accept-encoding".to_owned()),
            HeaderValue::new((*line).to_owned()).unwrap(),
        );
    }
    AcceptEncoding::from_headers(&headers).unwrap().unwrap()
}

#[test]
fn weight_renders_without_padding() {
    let accept = with_lines(&["gzip;q=0.5"]);
    assert_eq!(accept.value().as_str(), "gzip;q=0.5");
}

#[test]
fn weight_renders_minimally() {
    let accept = with_lines(&["gzip;q=0.50, br;q=1.0, deflate;q=0.125, identity;q=0.05"]);
    assert_eq!(
        accept.value().as_str(),
        "gzip;q=0.5, br;q=1, deflate;q=0.125, identity;q=0.05"
    );
}

#[test]
fn wildcard_only_renders_star() {
    let mut accept = AcceptEncoding::new();
    accept.set_wildcard(true);
    assert_eq!(accept.value().as_str(), "*");
}

#[test]
fn empty_list_renders_empty() {
    let accept = AcceptEncoding::new();
    assert_eq!(accept.value().as_str(), "");
}

#[test]
fn entries_join_with_comma_space() {
    let mut accept = AcceptEncoding::new();
    accept.push(EncodingProposal::new(Encoding::Gzip, None).unwrap());
    accept.push(
        EncodingProposal::new(Encoding::Br, Some(Quality::new(800).unwrap())).unwrap(),
    );
    assert_eq!(accept.value().as_str(), "gzip, br;q=0.8");
}

#[test]
fn wildcard_renders_last() {
    let mut accept = AcceptEncoding::new();
    accept.push(EncodingProposal::new(Encoding::Gzip, None).unwrap());
    accept.set_wildcard(true);
    assert_eq!(accept.value().as_str(), "gzip, *");
}

#[test]
fn extension_token_renders_verbatim() {
    let mut accept = AcceptEncoding::new();
    accept.push(
        EncodingProposal::new(Encoding::new("My-Enc").unwrap(), None).unwrap(),
    );
    assert_eq!(accept.value().as_str(), "My-Enc");
}

#[test]
fn round_trip_preserves_list() {
    let mut accept = AcceptEncoding::new();
    accept.push(EncodingProposal::new(Encoding::Gzip, None).unwrap());
    accept.push(
        EncodingProposal::new(Encoding::Deflate, Some(Quality::new(500).unwrap())).unwrap(),
    );
    accept.push(
        EncodingProposal::new(Encoding::new("custom-enc").unwrap(), Some(Quality::new(1).unwrap()))
            .unwrap(),
    );
    accept.set_wildcard(true);

    let rendered = accept.value();
    let reparsed = with_lines(&[rendered.as_str()]);
    assert_eq!(reparsed.wildcard(), accept.wildcard());

    let mut a = accept.iter();
    let mut b = reparsed.iter();
    for _ in 0..3 {
        let x = a.next().unwrap();
        let y = b.next().unwrap();
        assert_eq!(x.encoding, y.encoding);
        assert_eq!(x.weight, y.weight);
    }
    assert!(a.next().is_none());
    assert!(b.next().is_none());
    assert_eq!(reparsed.value().as_str(), rendered.as_str());
}

#[test]
fn to_header_values_empty_is_none() {
    let accept = AcceptEncoding::new();
    assert!(accept.to_header_values().is_none());
}

#[test]
fn to_header_values_nonempty_is_one() {
    let mut accept = AcceptEncoding::new();
    accept.push(EncodingProposal::new(Encoding::Gzip, None).unwrap());
    assert_eq!(accept.to_header_values().unwrap().as_str(), "gzip");
}

#[test]
fn name_is_accept_encoding() {
    let accept = AcceptEncoding::new();
    assert_eq!(accept.name().as_str(), "accept-encoding");
}
