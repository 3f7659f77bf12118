use accept_encoding::AcceptEncoding;
use accept_encoding::Encoding;
use accept_encoding::EncodingProposal;
use accept_encoding::HeaderName;
use accept_encoding::HeaderValue;
use accept_encoding::Headers;
use accept_encoding::ParseError;
use accept_encoding::Quality;

#[test]
fn quality_rejects_out_of_range() {
    assert_eq!(Quality::new(1001).unwrap_err(), ParseError::OutOfRangeQuality);
    assert_eq!(Quality::new(1000).unwrap().thousandths(), 1000);
}

#[test]
fn encoding_rejects_invalid_tokens() {
    assert_eq!(Encoding::new("").unwrap_err(), ParseError::InvalidEncoding);
    assert_eq!(Encoding::new("*").unwrap_err(), ParseError::InvalidEncoding);
    assert_eq!(
        Encoding::new("sp ace").unwrap_err(),
        ParseError::InvalidEncoding
    );
    assert_eq!(Encoding::new("GZIP").unwrap(), Encoding::Gzip);
    assert_eq!(
        Encoding::new("x-custom").unwrap(),
        Encoding::Other("x-custom".to_owned())
    );
}

#[test]
fn proposal_new_rejects_invalid_encoding() {
    assert_eq!(
        EncodingProposal::new(Encoding::Other("two words".to_owned()), None).unwrap_err(),
        ParseError::InvalidEncoding
    );
}

#[test]
fn header_value_rejects_non_ascii() {
    assert_eq!(
        HeaderValue::new("caf\u{e9}".to_owned()).unwrap_err(),
        ParseError::InvalidHeaderValue
    );
    assert_eq!(HeaderValue::new("gzip".to_owned()).unwrap().as_str(), "gzip");
}

#[test]
fn headers_insert_replaces_and_append_extends() {
    let name = || HeaderName::new("accept-encoding".to_owned());
    let other = || HeaderName::new("x-other".to_owned());
    let mut headers = Headers::new();
    assert!(headers.get(&name()).is_none());

    headers.insert(other(), HeaderValue::new("kept".to_owned()).unwrap());
    headers.append(name(), HeaderValue::new("gzip".to_owned()).unwrap());
    headers.append(name(), HeaderValue::new("br".to_owned()).unwrap());
    let lines = headers.get(&name()).unwrap();
    assert_eq!(lines.len(), 2);
    assert_eq!(lines[0].as_str(), "gzip");
    assert_eq!(lines[1].as_str(), "br");

    headers.insert(name(), HeaderValue::new("identity".to_owned()).unwrap());
    let lines = headers.get(&name()).unwrap();
    assert_eq!(lines.len(), 1);
    assert_eq!(lines[0].as_str(), "identity");
    assert_eq!(headers.get(&other()).unwrap()[0].as_str(), "kept");
}

#[test]
fn iter_walks_in_order() {
    let mut accept = AcceptEncoding::new();
    accept.push(EncodingProposal::new(Encoding::Gzip, None).unwrap());
    accept.push(EncodingProposal::new(Encoding::Br, None).unwrap());
    let mut iter = accept.iter();
    assert_eq!(iter.size_hint(), (2, Some(2)));
    assert_eq!(iter.next().unwrap().encoding, Encoding::Gzip);
    assert_eq!(iter.next().unwrap().encoding, Encoding::Br);
    assert_eq!(iter.size_hint(), (0, Some(0)));
    assert!(iter.next().is_none());
}

#[test]
fn into_iter_yields_owned_entries() {
    let mut accept = AcceptEncoding::new();
    accept.push(EncodingProposal::new(Encoding::Gzip, None).unwrap());
    accept.push(
        EncodingProposal::new(Encoding::Br, Some(Quality::new(300).unwrap())).unwrap(),
    );
    let mut iter = accept.into_iter();
    assert_eq!(iter.size_hint(), (2, Some(2)));
    let first = iter.next().unwrap();
    assert_eq!(first.encoding, Encoding::Gzip);
    assert_eq!(first.weight, None);
    let second = iter.next().unwrap();
    assert_eq!(second.encoding, Encoding::Br);
    assert_eq!(second.weight, Some(Quality::new(300).unwrap()));
    assert!(iter.next().is_none());
}

#[test]
fn response_carries_status() {
    let response = accept_encoding::Response::new(200);
    assert_eq!(response.status(), 200);
}
