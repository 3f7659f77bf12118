//! A minimal header store: the collaborator that holds raw header lines.
//!
//! The store is a name-to-lines map with exact-match lookup, just wide enough
//! for the parser to fetch every physical occurrence of a header and for the
//! serializer to install a rendered value. General header-container concerns
//! (case-insensitive names, rich typing) are out of scope.

use vstd::prelude::*;

use crate::error::ParseError;
use crate::text::all_header_chars;
use crate::text::is_header_char;

verus! {

/// A header name, stored verbatim and compared exactly.
#[derive(Debug, PartialEq, Eq)]
pub struct HeaderName {
    name: String,
}

impl View for HeaderName {
    type V = Seq<char>;

    closed spec fn view(&self) -> Seq<char> {
        self.name@
    }
}

impl HeaderName {
    /// Wrap a name string.
    pub fn new(name: String) -> (r: HeaderName)
        ensures
            r@ == name@,
    {
        HeaderName { name }
    }

    /// The name as text.
    pub fn as_str(&self) -> (r: &str)
        ensures
            r@ == self@,
    {
        self.name.as_str()
    }
}

/// The canonical name of the content-negotiation header for encodings.
pub open spec fn accept_encoding_text() -> Seq<char> {
    seq!['a', 'c', 'c', 'e', 'p', 't', '-', 'e', 'n', 'c', 'o', 'd', 'i', 'n', 'g']
}

/// The `accept-encoding` header name.
pub fn accept_encoding_name() -> (r: HeaderName)
    ensures
        r@ == accept_encoding_text(),
{
    proof {
        reveal_strlit("accept-encoding");
        assert("accept-encoding"@ =~= accept_encoding_text());
    }
    HeaderName::new("accept-encoding".to_owned())
}

/// One physical header value: printable ASCII text.
#[derive(Debug, PartialEq, Eq)]
pub struct HeaderValue {
    value: String,
}

impl View for HeaderValue {
    type V = Seq<char>;

    closed spec fn view(&self) -> Seq<char> {
        self.value@
    }
}

impl Clone for HeaderValue {
    /// Cloning keeps the text.
    fn clone(&self) -> (r: Self)
        ensures
            r@ == self@,
    {
        HeaderValue { value: self.value.clone() }
    }
}

impl HeaderValue {
    /// A header value is valid when all of its text is printable ASCII.
    pub open spec fn wf(self) -> bool {
        all_header_chars(self@)
    }

    /// Wrap a string, rejecting text that is not printable ASCII.
    pub fn new(value: String) -> (r: Result<HeaderValue, ParseError>)
        ensures
            r is Ok <==> all_header_chars(value@),
            r matches Ok(v) ==> v@ == value@ && v.wf(),
            r matches Err(e) ==> e == ParseError::InvalidHeaderValue,
    {
        let s = value.as_str();
        let n: usize = s.unicode_len();
        let mut i: usize = 0;
        while i < n
            invariant
                n == value@.len(),
                s@ == value@,
                i <= n,
                forall|j: int| 0 <= j < i ==> is_header_char(value@[j]),
            decreases n - i,
        {
            let c = s.get_char(i) as u32;
            if c < 32 || c > 126 {
                return Err(ParseError::InvalidHeaderValue);
            }
            i = i + 1;
        }
        Ok(HeaderValue { value })
    }

    /// Wrap a string already known to be printable ASCII.
    pub(crate) fn from_checked(value: String) -> (r: HeaderValue)
        requires
            all_header_chars(value@),
        ensures
            r@ == value@,
            r.wf(),
    {
        HeaderValue { value }
    }

    /// The value as text.
    pub fn as_str(&self) -> (r: &str)
        ensures
            r@ == self@,
    {
        self.value.as_str()
    }
}

/// The views of a sequence of header values.
pub open spec fn values_views(vs: Seq<HeaderValue>) -> Seq<Seq<char>> {
    vs.map_values(|v: HeaderValue| v@)
}

/// First-match lookup of a name in the stored entries.
pub open spec fn lookup(h: Seq<(Seq<char>, Seq<Seq<char>>)>, name: Seq<char>) -> Option<
    Seq<Seq<char>>,
>
    decreases h.len(),
{
    if h.len() == 0 {
        None
    } else if h[0].0 == name {
        Some(h[0].1)
    } else {
        lookup(h.drop_first(), name)
    }
}

/// A store of header lines keyed by name.
///
/// Updates prepend a fresh entry; lookup takes the first match, so the
/// freshest entry for a name shadows older ones.
#[derive(Debug)]
pub struct Headers {
    entries: Vec<(HeaderName, Vec<HeaderValue>)>,
}

impl View for Headers {
    type V = Seq<(Seq<char>, Seq<Seq<char>>)>;

    closed spec fn view(&self) -> Seq<(Seq<char>, Seq<Seq<char>>)> {
        self.entries@.map_values(|e: (HeaderName, Vec<HeaderValue>)| (e.0@, values_views(e.1@)))
    }
}

impl Headers {
    /// An empty store.
    pub fn new() -> (r: Headers)
        ensures
            r@ == Seq::<(Seq<char>, Seq<Seq<char>>)>::empty(),
    {
        let r = Headers { entries: Vec::new() };
        proof {
            assert(r@ =~= Seq::<(Seq<char>, Seq<Seq<char>>)>::empty());
        }
        r
    }

    /// All lines stored under `name`, if any.
    pub fn get<'a>(&'a self, name: &HeaderName) -> (r: Option<&'a Vec<HeaderValue>>)
        ensures
            match r {
                Some(vs) => lookup(self@, name@) == Some(values_views(vs@)),
                None => lookup(self@, name@) is None,
            },
    {
        let n = self.entries.len();
        let mut i: usize = 0;
        proof {
            assert(self@.skip(0) =~= self@);
        }
        while i < n
            invariant
                n == self.entries.len(),
                i <= n,
                lookup(self@, name@) == lookup(self@.skip(i as int), name@),
            decreases n - i,
        {
            let e = &self.entries[i];
            proof {
                assert(self@[i as int] == (e.0@, values_views(e.1@)));
                assert(self@.skip(i as int)[0] == self@[i as int]);
            }
            if e.0.name.eq(&name.name) {
                return Some(&e.1);
            }
            proof {
                assert(self@.skip(i as int).drop_first() =~= self@.skip(i + 1));
            }
            i = i + 1;
        }
        proof {
            assert(self@.skip(n as int).len() == 0);
        }
        None
    }

    /// Install `value` as the one line stored under `name`.
    pub fn insert(&mut self, name: HeaderName, value: HeaderValue)
        ensures
            lookup(final(self)@, name@) == Some(seq![value@]),
            forall|m: Seq<char>|
                m != name@ ==> #[trigger] lookup(final(self)@, m) == lookup(old(self)@, m),
    {
        let ghost nv = name@;
        let ghost vv = value@;
        let mut vs: Vec<HeaderValue> = Vec::new();
        vs.push(value);
        proof {
            assert(values_views(vs@) =~= seq![vv]);
        }
        self.entries.insert(0, (name, vs));
        proof {
            assert(final(self)@ =~= seq![(nv, seq![vv])] + old(self)@);
            assert(final(self)@.drop_first() =~= old(self)@);
        }
    }

    /// Add `value` as one more line stored under `name`, after any lines
    /// already stored there.
    pub fn append(&mut self, name: HeaderName, value: HeaderValue)
        ensures
            lookup(final(self)@, name@) == Some(
                match lookup(old(self)@, name@) {
                    Some(vs) => vs.push(value@),
                    None => seq![value@],
                },
            ),
            forall|m: Seq<char>|
                m != name@ ==> #[trigger] lookup(final(self)@, m) == lookup(old(self)@, m),
    {
        let ghost nv = name@;
        let ghost vv = value@;
        let ghost prior = lookup(old(self)@, name@);
        let mut vs: Vec<HeaderValue>;
        match self.get(&name) {
            Some(existing) => {
                vs = clone_values(existing);
            },
            None => {
                vs = Vec::new();
            },
        }
        proof {
            assert(values_views(vs@) =~= match prior {
                Some(p) => p,
                None => Seq::<Seq<char>>::empty(),
            });
        }
        vs.push(value);
        proof {
            assert(values_views(vs@) =~= match prior {
                Some(p) => p.push(vv),
                None => seq![vv],
            });
        }
        self.entries.insert(0, (name, vs));
        proof {
            assert(final(self)@ =~= seq![(nv, values_views(vs@))] + old(self)@);
            assert(final(self)@.drop_first() =~= old(self)@);
        }
    }
}

/// Copy a list of header values.
fn clone_values(vs: &Vec<HeaderValue>) -> (r: Vec<HeaderValue>)
    ensures
        values_views(r@) == values_views(vs@),
{
    let n = vs.len();
    let mut out: Vec<HeaderValue> = Vec::new();
    let mut i: usize = 0;
    while i < n
        invariant
            n == vs.len(),
            i <= n,
            out@.len() == i,
            forall|j: int| 0 <= j < i ==> out@[j]@ == vs@[j]@,
        decreases n - i,
    {
        out.push(vs[i].clone());
        i = i + 1;
    }
    proof {
        assert(values_views(out@) =~= values_views(vs@));
    }
    out
}

/// A bare response message: a status code plus its headers.
///
/// Only what the header round trip needs; body and transport are out of
/// scope.
#[derive(Debug)]
pub struct Response {
    /// The status code of this response.
    pub status: u16,
    /// The header store of this response.
    pub headers: Headers,
}

impl Response {
    /// A response with the given status code and no headers.
    pub fn new(status: u16) -> (r: Response)
        ensures
            r.status == status,
            r.headers@ == Seq::<(Seq<char>, Seq<Seq<char>>)>::empty(),
    {
        Response { status, headers: Headers::new() }
    }

    /// The status code.
    pub fn status(&self) -> (r: u16)
        ensures
            r == self.status,
    {
        self.status
    }
}

} // verus!
