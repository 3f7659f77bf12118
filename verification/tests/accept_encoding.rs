use accept_encoding::AcceptEncoding;
use accept_encoding::Encoding;
use accept_encoding::EncodingProposal;
use accept_encoding::Response;

#[test]
fn smoke() {
    let mut accept = AcceptEncoding::new();
    accept.push(EncodingProposal::new(Encoding::Gzip, None).unwrap());

    let mut headers = Response::new(200);
    accept.apply(&mut headers.headers);

    let accept = AcceptEncoding::from_headers(&headers.headers).unwrap().unwrap();
    let mut iter = accept.iter();
    assert_eq!(iter.next().unwrap().encoding, Encoding::Gzip);
}

#[test]
fn wildcard() {
    let mut accept = AcceptEncoding::new();
    accept.set_wildcard(true);

    let mut headers = Response::new(200);
    accept.apply(&mut headers.headers);

    let accept = AcceptEncoding::from_headers(&headers.headers).unwrap().unwrap();
    assert!(accept.wildcard());
}

#[test]
fn wildcard_and_header() {
    let mut accept = AcceptEncoding::new();
    accept.push(EncodingProposal::new(Encoding::Gzip, None).unwrap());
    accept.set_wildcard(true);

    let mut headers = Response::new(200);
    accept.apply(&mut headers.headers);

    let accept = AcceptEncoding::from_headers(&headers.headers).unwrap().unwrap();
    assert!(accept.wildcard());
    let mut iter = accept.iter();
    assert_eq!(iter.next().unwrap().encoding, Encoding::Gzip);
}
